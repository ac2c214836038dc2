//! Keeping the part of a tree that is still of use after a move.

use crate::zero::game::{GameBoard, Outcome};
use crate::zero::node::Node;
use crate::zero::range::IdxRange;
use crate::zero::tree::{
    board_at, complete_of, counted, lemma_root_bounds, linked,
    node_counted, node_linked, node_played, played, range_sum, tree_wf, virtual_of, Tree,
};
use vstd::prelude::*;

verus! {

/// What becomes of a tree when a move is played at its root.
pub enum KeepResult<B: GameBoard, P, V> {
    /// The move ends the game, so there is nothing left to search.
    Done(Outcome),
    /// The tree below the move.
    Tree(Tree<B, P, V>),
}

/// Node `b` holds what node `a` holds, apart from where it sits in its arena.
pub open spec fn same_content<M, P, V>(a: Node<M, P, V>, b: Node<M, P, V>) -> bool {
    &&& a.last_move == b.last_move
    &&& a.net_values == b.net_values
    &&& a.net_policy == b.net_policy
    &&& a.complete_visits == b.complete_visits
    &&& a.virtual_visits == b.virtual_visits
    &&& a.sum_values == b.sum_values
}

/// The children of node `j` of the copy are the children of the node it was
/// copied from, in the same order.
pub open spec fn children_copied<M, P, V>(
    source: Seq<Node<M, P, V>>,
    copy: Seq<Node<M, P, V>>,
    origin: Seq<int>,
    j: int,
) -> bool {
    match source[origin[j]].children {
        None => copy[j].children is None,
        Some(r) => {
            &&& copy[j].children matches Some(s)
            &&& s.wf()
            &&& s.length == r.length
            &&& j < s.start
            &&& s.end() <= copy.len()
            &&& forall|k: int|
                0 <= k < r.length ==> origin[s.start + k] == r.start + k && (#[trigger] copy[s.start
                    + k]).parent == Some(j as usize)
        },
    }
}

/// Node `j` of the copy, which is not its root, hangs below the copy of the
/// parent of the node it was copied from.
pub open spec fn parent_copied<M, P, V>(
    source: Seq<Node<M, P, V>>,
    copy: Seq<Node<M, P, V>>,
    origin: Seq<int>,
    done: int,
    j: int,
) -> bool {
    &&& copy[j].parent matches Some(p)
    &&& p < done
    &&& p < j
    &&& copy[p as int].children matches Some(s)
    &&& s.contains(j)
    &&& source[origin[j]].parent == Some(origin[p as int] as usize)
}

/// How far the copy of the tree below node `picked` has come: `copy` holds
/// copies of nodes of `source`, `origin` says of which, and the children of the
/// first `done` nodes of the copy have been copied.
pub open spec fn subtree_copy<M, P, V>(
    source: Seq<Node<M, P, V>>,
    copy: Seq<Node<M, P, V>>,
    origin: Seq<int>,
    done: int,
    picked: int,
) -> bool {
    &&& linked(source)
    &&& copy.len() == origin.len()
    &&& 0 <= done <= copy.len()
    &&& 1 <= copy.len() <= usize::MAX
    &&& 0 < picked < source.len()
    &&& origin[0] == picked
    &&& copy[0].parent is None
    &&& forall|j: int|
        0 <= j < copy.len() ==> picked <= #[trigger] origin[j] < source.len() && same_content(
            source[origin[j]],
            copy[j],
        )
    &&& forall|j: int| 0 < j < copy.len() ==> #[trigger] parent_copied(source, copy, origin, done, j)
    &&& forall|j: int| 0 <= j < done ==> #[trigger] children_copied(source, copy, origin, j)
    &&& forall|j: int|
        done <= j < copy.len() ==> (#[trigger] copy[j]).children == source[origin[j]].children
    &&& forall|j1: int, j2: int|
        0 <= j1 < copy.len() && 0 <= j2 < copy.len() && j1 != j2 ==> #[trigger] origin[j1]
            != #[trigger] origin[j2]
}

/// The sums over two ranges of the same length agree if the summands do.
pub proof fn lemma_range_sum_moved(
    f: spec_fn(int) -> int,
    g: spec_fn(int) -> int,
    from: int,
    to: int,
    len: nat,
)
    requires
        forall|k: int| 0 <= k < len ==> #[trigger] f(from + k) == g(to + k),
    ensures
        range_sum(f, from, len) == range_sum(g, to, len),
    decreases len,
{
    if len > 0 {
        lemma_range_sum_moved(f, g, from, to, (len - 1) as nat);
        assert(f(from + (len - 1)) == g(to + (len - 1)));
    }
}

/// The finished copy is a tree.
pub proof fn lemma_copy_linked<M, P, V>(
    source: Seq<Node<M, P, V>>,
    copy: Seq<Node<M, P, V>>,
    origin: Seq<int>,
    picked: int,
)
    requires
        subtree_copy(source, copy, origin, copy.len() as int, picked),
    ensures
        linked(copy),
{
    let n = copy.len() as int;
    assert forall|i: int| 0 <= i < copy.len() implies #[trigger] node_linked(copy, i) by {
        assert(children_copied(source, copy, origin, i));
        assert(picked <= origin[i] < source.len());
        assert(node_linked(source, origin[i]));
        if i != 0 {
            assert(parent_copied(source, copy, origin, n, i));
        }
    }
    assert forall|i: int, c: int|
        0 <= i < copy.len() && 0 <= c < copy.len() && (copy[i].children matches Some(r) && r.contains(
            c,
        )) implies (#[trigger] copy[c]).parent == Some(i as usize) || !#[trigger] node_linked(
        copy,
        i,
    ) by {
        assert(children_copied(source, copy, origin, i));
        let s = copy[i].children->0;
        let k = c - s.start;
        assert(copy[s.start + k].parent == Some(i as usize));
    }
}

/// The visit counts of the finished copy add up.
pub proof fn lemma_copy_counted<M, P, V>(
    source: Seq<Node<M, P, V>>,
    copy: Seq<Node<M, P, V>>,
    origin: Seq<int>,
    picked: int,
)
    requires
        subtree_copy(source, copy, origin, copy.len() as int, picked),
        counted(source),
    ensures
        counted(copy),
{
    assert forall|i: int| 0 <= i < copy.len() implies #[trigger] node_counted(copy, i) by {
        assert(children_copied(source, copy, origin, i));
        assert(picked <= origin[i] < source.len());
        let x = origin[i];
        assert(node_counted(source, x));
        assert(node_linked(source, x));
        assert(same_content(source[x], copy[i]));
        match source[x].children {
            None => {},
            Some(r) => {
                let s = copy[i].children->0;
                assert forall|k: int| 0 <= k < r.length implies #[trigger] complete_of(source)(
                    r.start + k,
                ) == complete_of(copy)(s.start + k) && virtual_of(source)(r.start + k) == virtual_of(
                    copy,
                )(s.start + k) by {
                    assert(origin[s.start + k] == r.start + k);
                    assert(same_content(source[origin[s.start + k]], copy[s.start + k]));
                }
                lemma_range_sum_moved(
                    complete_of(source),
                    complete_of(copy),
                    r.start as int,
                    s.start as int,
                    r.length as nat,
                );
                assert forall|k: int| 0 <= k < r.length implies #[trigger] virtual_of(source)(
                    r.start + k,
                ) == virtual_of(copy)(s.start + k) by {
                    assert(complete_of(source)(r.start + k) == complete_of(copy)(s.start + k));
                }
                lemma_range_sum_moved(
                    virtual_of(source),
                    virtual_of(copy),
                    r.start as int,
                    s.start as int,
                    r.length as nat,
                );
            },
        }
    }
}

/// The position at a node of the finished copy is the position at the node
/// it was copied from.
pub proof fn lemma_copy_board<B: GameBoard, P, V>(
    root: B,
    source: Seq<Node<B::Move, P, V>>,
    new_root: B,
    copy: Seq<Node<B::Move, P, V>>,
    origin: Seq<int>,
    picked: int,
    j: int,
)
    requires
        subtree_copy(source, copy, origin, copy.len() as int, picked),
        played(root, source),
        new_root == board_at(root, source, picked),
        0 <= j < copy.len(),
    ensures
        board_at(new_root, copy, j) == board_at(root, source, origin[j]),
    decreases j,
{
    if j > 0 {
        assert(parent_copied(source, copy, origin, copy.len() as int, j));
        let p = copy[j].parent->0 as int;
        lemma_copy_board(root, source, new_root, copy, origin, picked, p);
        assert(picked <= origin[j] < source.len());
        assert(picked <= origin[p] < source.len());
        assert(same_content(source[origin[j]], copy[j]));
        let x = origin[j];
        let q = origin[p];
        assert(node_linked(source, x));
        assert(node_played(root, source, q));
        let r = source[q].children->0;
        let k = x - r.start;
        assert(source[r.start + k].last_move is Some);
        assert(source[x].last_move == copy[j].last_move);
    }
}

/// The finished copy fits the game.
pub proof fn lemma_copy_played<B: GameBoard, P, V>(
    root: B,
    source: Seq<Node<B::Move, P, V>>,
    new_root: B,
    copy: Seq<Node<B::Move, P, V>>,
    origin: Seq<int>,
    picked: int,
)
    requires
        subtree_copy(source, copy, origin, copy.len() as int, picked),
        played(root, source),
        new_root == board_at(root, source, picked),
        new_root.valid(),
    ensures
        played(new_root, copy),
{
    assert forall|i: int| 0 <= i < copy.len() implies #[trigger] node_played(new_root, copy, i) by {
        lemma_copy_board(root, source, new_root, copy, origin, picked, i);
        assert(children_copied(source, copy, origin, i));
        assert(picked <= origin[i] < source.len());
        let x = origin[i];
        assert(node_played(root, source, x));
        assert(same_content(source[x], copy[i]));
        assert(node_linked(source, x));
        match source[x].children {
            None => {},
            Some(r) => {
                let s = copy[i].children->0;
                let board = board_at(new_root, copy, i);
                assert forall|k: int| 0 <= k < s.length implies (#[trigger] copy[s.start + k]).last_move
                    == Some(board.spec_moves()[k]) by {
                    assert(origin[s.start + k] == r.start + k);
                    assert(same_content(source[origin[s.start + k]], copy[s.start + k]));
                    assert(source[r.start + k].last_move == Some(board.spec_moves()[k]));
                }
            },
        }
    }
}

/// The copy has no more nodes than the tree it is taken from.
pub proof fn lemma_copy_bound<M, P, V>(
    source: Seq<Node<M, P, V>>,
    copy: Seq<Node<M, P, V>>,
    origin: Seq<int>,
    done: int,
    picked: int,
)
    requires
        subtree_copy(source, copy, origin, done, picked),
    ensures
        copy.len() <= source.len(),
{
    assert(origin.no_duplicates());
    origin.unique_seq_to_set();
    vstd::set_lib::lemma_int_range(0, source.len() as int);
    assert(origin.to_set().subset_of(vstd::set_lib::set_int_range(0, source.len() as int))) by {
        assert forall|x: int| origin.to_set().contains(x) implies vstd::set_lib::set_int_range(
            0,
            source.len() as int,
        ).contains(x) by {
            let j = choose|j: int| 0 <= j < origin.len() && origin[j] == x;
            assert(picked <= origin[j] < source.len());
        }
    }
    vstd::set_lib::lemma_len_subset(
        origin.to_set(),
        vstd::set_lib::set_int_range(0, source.len() as int),
    );
}

/// A node with the content of `node`, below parent `parent`, with the same
/// range of children.
fn copy_node<M: Copy, P: Copy, V: Copy>(node: &Node<M, P, V>, parent: Option<usize>) -> (r: Node<
    M,
    P,
    V,
>)
    ensures
        same_content(*node, r),
        r.parent == parent,
        r.children == node.children,
{
    Node {
        parent,
        last_move: node.last_move,
        children: node.children,
        net_values: node.net_values,
        net_policy: node.net_policy,
        complete_visits: node.complete_visits,
        virtual_visits: node.virtual_visits,
        sum_values: node.sum_values,
    }
}

impl<B: GameBoard, P: Copy, V: Copy> Tree<B, P, V> {
    /// The child of the root that move `mv` leads to. The root must have
    /// been expanded, and `mv` must be a move of its position.
    pub fn child_for(&self, mv: B::Move) -> (r: usize)
        requires
            self.wf(),
            self@[0].children is Some,
            self.root().spec_moves().contains(mv),
        ensures
            self@[0].children->0.contains(r as int),
            self@[r as int].last_move == Some(mv),
            self@[r as int].parent == Some(0usize),
            forall|c: int|
                self@[0].children->0.start <= c < r ==> self@[c].last_move != Some(mv),
    {
        proof {
            assert(node_linked(self@, 0));
            assert(node_played(self.root(), self@, 0));
        }
        let children = self.nodes[0].children.unwrap();
        let ghost moves = self.root().spec_moves();
        let mut k: usize = 0;
        while k < children.length as usize
            invariant
                self.wf(),
                self@[0].children == Some(children),
                moves == self.root().spec_moves(),
                moves.contains(mv),
                k <= children.length,
                forall|j: int| 0 <= j < k ==> moves[j] != mv,
            decreases children.length - k,
        {
            let c = children.get(k);
            proof {
                assert(node_linked(self@, 0));
                assert(node_played(self.root(), self@, 0));
                assert(self@[children.start + k].last_move == Some(moves[k as int]));
            }
            let child_move = self.nodes[c].last_move.unwrap();
            if B::same_move(child_move, mv) {
                proof {
                    assert forall|i: int| children.start <= i < c implies self@[i].last_move != Some(
                        mv,
                    ) by {
                        let j = i - children.start;
                        assert(self@[children.start + j].last_move == Some(moves[j]));
                    }
                }
                return c;
            }
            k += 1;
        }
        proof {
            let j = choose|j: int| 0 <= j < moves.len() && moves[j] == mv;
            assert(node_played(self.root(), self@, 0));
            assert(false);
        }
        children.start
    }

    /// The tree that is still of use after move `mv` has been played at the
    /// root: a copy of the child that the move leads to and of everything
    /// below it, with its visits, values and priors. Where the move ends
    /// the game there is no such tree, and the outcome is handed back in its
    /// place. The root must have been expanded, and `mv` must be a move of
    /// its position.
    pub fn keep_move(&self, mv: B::Move) -> (r: KeepResult<B, P, V>)
        requires
            self.wf(),
            self@[0].children is Some,
            self.root().spec_moves().contains(mv),
        ensures
            match r {
                KeepResult::Done(outcome) => self.root().spec_play(mv).spec_outcome() == Some(
                    outcome,
                ),
                KeepResult::Tree(tree) => {
                    &&& self.root().spec_play(mv).spec_outcome() is None
                    &&& tree.wf()
                    &&& tree.root() == self.root().spec_play(mv)
                    &&& exists|origin: Seq<int>, picked: int|
                        {
                            &&& #[trigger] subtree_copy(
                                self@,
                                tree@,
                                origin,
                                tree@.len() as int,
                                picked,
                            )
                            &&& self@[0].children->0.contains(picked)
                            &&& self@[picked].last_move == Some(mv)
                        }
                },
            },
    {
        let ghost source = self.nodes@;
        proof {
            assert(node_played(self.root(), source, 0));
            assert(node_linked(source, 0));
        }
        let mut new_root_board = self.root_board.duplicate();
        new_root_board.play(mv);
        if let Some(outcome) = new_root_board.outcome() {
            return KeepResult::Done(outcome);
        }
        let picked_child = self.child_for(mv);
        let ghost picked = picked_child as int;

        let mut new_nodes: Vec<Node<B::Move, P, V>> = Vec::new();
        new_nodes.push(copy_node(&self.nodes[picked_child], None));
        let ghost mut origin: Seq<int> = seq![picked];
        let mut i: usize = 0;
        proof {
            assert(node_linked(source, picked));
        }
        while i < new_nodes.len()
            invariant
                source == self.nodes@,
                subtree_copy(source, new_nodes@, origin, i as int, picked),
            decreases source.len() - i,
        {
            proof {
                lemma_copy_bound(source, new_nodes@, origin, i as int, picked);
            }
            let ghost x = origin[i as int];
            let ghost before = new_nodes@;
            let ghost origin_before = origin;
            proof {
                assert(picked <= origin[i as int] < source.len());
                assert(node_linked(source, x));
            }
            match new_nodes[i].children {
                None => {
                    proof {
                        assert(children_copied(source, before, origin, i as int));
                        assert forall|j: int| 0 < j < before.len() implies #[trigger] parent_copied(
                            source,
                            before,
                            origin,
                            i + 1,
                            j,
                        ) by {
                            assert(parent_copied(source, before, origin, i as int, j));
                        }
                    }
                },
                Some(source_children) => {
                    let new_start = new_nodes.len();
                    let mut k: usize = 0;
                    while k < source_children.length as usize
                        invariant
                            source == self.nodes@,
                            source_children.wf(),
                            source_children.end() <= source.len(),
                            k <= source_children.length,
                            new_start == before.len(),
                            new_nodes@.len() == before.len() + k,
                            origin.len() == new_nodes@.len(),
                            forall|j: int| 0 <= j < before.len() ==> #[trigger] new_nodes@[j] == before[j],
                            forall|j: int| 0 <= j < before.len() ==> #[trigger] origin[j] == origin_before[j],
                            forall|j: int|
                                0 <= j < k ==> {
                                    &&& #[trigger] origin[before.len() + j] == source_children.start + j
                                    &&& same_content(
                                        source[source_children.start + j],
                                        new_nodes@[before.len() + j],
                                    )
                                    &&& new_nodes@[before.len() + j].parent == Some(i)
                                    &&& new_nodes@[before.len() + j].children == source[source_children.start
                                        + j].children
                                },
                        decreases source_children.length - k,
                    {
                        let c = source_children.get(k);
                        new_nodes.push(copy_node(&self.nodes[c], Some(i)));
                        proof {
                            origin = origin.push(c as int);
                        }
                        k += 1;
                    }
                    let new_end = new_nodes.len();
                    let new_children = IdxRange::new(new_start, new_end);
                    let parent = &mut new_nodes[i];
                    parent.children = Some(new_children);
                    proof {
                        let now = new_nodes@;
                        let r = source_children;
                        let s = new_children;
                        assert(source[x].children == Some(r));
                        assert forall|j: int| 0 <= j < now.len() implies picked <= #[trigger] origin[j]
                            < source.len() && same_content(source[origin[j]], now[j]) by {
                            if j < before.len() {
                                assert(origin[j] == origin_before[j]);
                                assert(picked <= origin_before[j] < source.len());
                                assert(same_content(source[origin_before[j]], before[j]));
                                if j != i {
                                    assert(now[j] == before[j]);
                                }
                            } else {
                                let t = j - before.len();
                                assert(origin[before.len() + t] == r.start + t);
                            }
                        }
                        assert forall|j: int| 0 < j < now.len() implies #[trigger] parent_copied(
                            source,
                            now,
                            origin,
                            i + 1,
                            j,
                        ) by {
                            if j < before.len() {
                                assert(parent_copied(source, before, origin_before, i as int, j));
                                let p = before[j].parent->0 as int;
                                assert(now[p] == before[p]);
                                assert(origin[j] == origin_before[j]);
                                assert(origin[p] == origin_before[p]);
                                if j != i {
                                    assert(now[j] == before[j]);
                                }
                            } else {
                                let t = j - before.len();
                                assert(origin[before.len() + t] == r.start + t);
                                assert(s.contains(j));
                                assert(source[r.start + t].parent == Some(x as usize));
                                assert(origin[i as int] == origin_before[i as int]);
                            }
                        }
                        assert forall|j: int| 0 <= j < i + 1 implies #[trigger] children_copied(
                            source,
                            now,
                            origin,
                            j,
                        ) by {
                            if j < i {
                                assert(children_copied(source, before, origin_before, j));
                                assert(now[j] == before[j]);
                                assert(origin[j] == origin_before[j]);
                                match source[origin[j]].children {
                                    None => {},
                                    Some(rj) => {
                                        let sj = before[j].children->0;
                                        assert forall|t: int| 0 <= t < rj.length implies origin[sj.start
                                            + t] == rj.start + t && (#[trigger] now[sj.start + t]).parent
                                            == Some(j as usize) by {
                                            assert(before[sj.start + t].parent == Some(j as usize));
                                            assert(origin[sj.start + t] == origin_before[sj.start + t]);
                                            assert(now[sj.start + t].parent == before[sj.start
                                                + t].parent);
                                        }
                                    },
                                }
                            } else {
                                assert(origin[j] == origin_before[j]);
                                assert forall|t: int| 0 <= t < r.length implies origin[s.start + t]
                                    == r.start + t && (#[trigger] now[s.start + t]).parent == Some(
                                    j as usize,
                                ) by {
                                    assert(origin[before.len() + t] == r.start + t);
                                }
                            }
                        }
                        assert forall|j: int| i + 1 <= j < now.len() implies (#[trigger] now[j]).children
                            == source[origin[j]].children by {
                            if j < before.len() {
                                assert(now[j] == before[j]);
                                assert(origin[j] == origin_before[j]);
                            } else {
                                let t = j - before.len();
                                assert(origin[before.len() + t] == r.start + t);
                            }
                        }
                        assert forall|j1: int, j2: int|
                            0 <= j1 < now.len() && 0 <= j2 < now.len() && j1 != j2 implies #[trigger] origin[j1]
                                != #[trigger] origin[j2] by {
                            lemma_fresh_origin(source, before, origin_before, origin, i as int, picked, j1, j2);
                        }
                        assert(now[0].parent is None) by {
                            if i != 0 {
                                assert(now[0] == before[0]);
                            }
                        }
                        assert(origin[0] == origin_before[0]);
                    }
                },
            }
            i += 1;
        }
        proof {
            let copy = new_nodes@;
            lemma_copy_linked(source, copy, origin, picked);
            lemma_copy_counted(source, copy, origin, picked);
            assert(board_at(self.root(), source, picked) == self.root().spec_play(mv));
            lemma_copy_played(self.root(), source, new_root_board, copy, origin, picked);
            lemma_root_bounds(source, picked);
            assert(picked <= origin[0] < source.len() && same_content(source[origin[0]], copy[0]));
            assert(tree_wf(new_root_board, copy));
            assert(subtree_copy(self@, copy, origin, copy.len() as int, picked));
        }
        let tree = Tree { root_board: new_root_board, nodes: new_nodes };
        proof {
            assert(subtree_copy(self@, tree@, origin, tree@.len() as int, picked));
            assert(tree.root().spec_outcome() is None);
        }
        KeepResult::Tree(tree)
    }
}

/// The nodes that are copied below node `i` of the copy have not been
/// copied before.
proof fn lemma_fresh_origin<M, P, V>(
    source: Seq<Node<M, P, V>>,
    before: Seq<Node<M, P, V>>,
    origin_before: Seq<int>,
    origin: Seq<int>,
    i: int,
    picked: int,
    j1: int,
    j2: int,
)
    requires
        subtree_copy(source, before, origin_before, i, picked),
        0 <= i < before.len(),
        source[origin_before[i]].children is Some,
        origin.len() == before.len() + source[origin_before[i]].children->0.length,
        forall|j: int| 0 <= j < before.len() ==> #[trigger] origin[j] == origin_before[j],
        forall|t: int|
            0 <= t < source[origin_before[i]].children->0.length ==> #[trigger] origin[before.len() + t]
                == source[origin_before[i]].children->0.start + t,
        0 <= j1 < origin.len(),
        0 <= j2 < origin.len(),
        j1 != j2,
    ensures
        origin[j1] != origin[j2],
{
    let n = before.len() as int;
    let x = origin_before[i];
    assert(picked <= origin_before[i] < source.len());
    assert(node_linked(source, x));
    let r = source[x].children->0;
    if j1 < n && j2 < n {
        assert(origin_before[j1] != origin_before[j2]);
    } else if j1 >= n && j2 >= n {
        assert(origin[n + (j1 - n)] == r.start + (j1 - n));
        assert(origin[n + (j2 - n)] == r.start + (j2 - n));
    } else {
        let (fresh, known) = if j1 >= n {
            (j1, j2)
        } else {
            (j2, j1)
        };
        let t = fresh - n;
        assert(origin[n + t] == r.start + t);
        let y = r.start + t;
        assert(source[y].parent == Some(x as usize));
        assert(origin[known] == origin_before[known]);
        if origin_before[known] == y {
            if known == 0 {
                assert(node_linked(source, picked));
                assert(false);
            } else {
                assert(parent_copied(source, before, origin_before, i, known));
                let p = before[known].parent->0 as int;
                assert(origin_before[p] == x);
                assert(origin_before[p] != origin_before[i]);
            }
        }
    }
}

} // verus!
