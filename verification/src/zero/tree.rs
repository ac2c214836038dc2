//! The search tree: a root position and an arena of nodes that only grows.

use crate::zero::game::{GameBoard, Numeric};
use crate::zero::node::Node;
use crate::zero::range::IdxRange;
use vstd::prelude::*;

verus! {

/// The sum of `f` over the `len` indices from `start` on.
pub open spec fn range_sum(f: spec_fn(int) -> int, start: int, len: nat) -> int
    decreases len,
{
    if len == 0 {
        0
    } else {
        range_sum(f, start, (len - 1) as nat) + f(start + len - 1)
    }
}

/// The finished visits of each node.
pub open spec fn complete_of<M, P, V>(nodes: Seq<Node<M, P, V>>) -> spec_fn(int) -> int {
    |i: int| nodes[i].complete_visits as int
}

/// The waiting visits of each node.
pub open spec fn virtual_of<M, P, V>(nodes: Seq<Node<M, P, V>>) -> spec_fn(int) -> int {
    |i: int| nodes[i].virtual_visits as int
}

/// The finished visits of all children of node `i` together.
pub open spec fn children_complete<M, P, V>(nodes: Seq<Node<M, P, V>>, i: int) -> int {
    match nodes[i].children {
        Some(r) => range_sum(complete_of(nodes), r.start as int, r.length as nat),
        None => 0,
    }
}

/// The waiting visits of all children of node `i` together.
pub open spec fn children_virtual<M, P, V>(nodes: Seq<Node<M, P, V>>, i: int) -> int {
    match nodes[i].children {
        Some(r) => range_sum(virtual_of(nodes), r.start as int, r.length as nat),
        None => 0,
    }
}

/// Node `i` and its parent point at each other.
pub open spec fn node_linked<M, P, V>(nodes: Seq<Node<M, P, V>>, i: int) -> bool {
    &&& if i == 0 {
        nodes[i].parent is None
    } else {
        &&& nodes[i].parent matches Some(p)
        &&& p < i
        &&& nodes[p as int].children matches Some(r)
        &&& r.contains(i)
    }
    &&& nodes[i].children matches Some(r) ==> r.wf() && i < r.start && r.end() <= nodes.len()
    &&& nodes[i].net_values is Some ==> nodes[i].children is Some
}

/// The arena is a tree: slot zero is the root, every other node lies in the
/// range of children of its parent, and children come after their parent.
///
/// The last clause says that a node in the range of children of node `i`
/// has `i` for its parent; it names `node_linked(nodes, i)`, which the
/// clause before it gives, so that it is used where that fact is.
pub open spec fn linked<M, P, V>(nodes: Seq<Node<M, P, V>>) -> bool {
    &&& 1 <= nodes.len() <= usize::MAX
    &&& forall|i: int| 0 <= i < nodes.len() ==> #[trigger] node_linked(nodes, i)
    &&& forall|i: int, c: int|
        0 <= i < nodes.len() && 0 <= c < nodes.len() && (nodes[i].children matches Some(r)
            && r.contains(c)) ==> (#[trigger] nodes[c]).parent == Some(i as usize)
            || !#[trigger] node_linked(nodes, i)
}

/// The visit counts of node `i` add up: an expanded node has as many
/// finished visits as its children together, and one more once it has been
/// evaluated itself; as many waiting visits as its children together, and
/// one more while it waits for its own evaluation.
pub open spec fn node_counted<M, P, V>(nodes: Seq<Node<M, P, V>>, i: int) -> bool {
    match nodes[i].children {
        Some(r) => {
            &&& nodes[i].complete_visits == children_complete(nodes, i) + if nodes[i].net_values is Some {
                1int
            } else {
                0int
            }
            &&& nodes[i].virtual_visits == children_virtual(nodes, i) + if nodes[i].net_values is None {
                1int
            } else {
                0int
            }
        },
        None => nodes[i].virtual_visits == 0,
    }
}

/// The visit counts of every node add up.
pub open spec fn counted<M, P, V>(nodes: Seq<Node<M, P, V>>) -> bool {
    forall|i: int| 0 <= i < nodes.len() ==> #[trigger] node_counted(nodes, i)
}

/// The position at node `i`: the root position after the moves that lead to
/// the node.
pub open spec fn board_at<B: GameBoard, P, V>(root: B, nodes: Seq<Node<B::Move, P, V>>, i: int) -> B
    decreases i,
{
    if i <= 0 {
        root
    } else {
        match (nodes[i].parent, nodes[i].last_move) {
            (Some(p), Some(mv)) => if p < i {
                board_at(root, nodes, p as int).spec_play(mv)
            } else {
                root
            },
            _ => root,
        }
    }
}

/// Node `i` fits the game: an expanded node is an unfinished position with
/// one child per move, in the order of the moves; a node that has finished
/// visits without having been expanded is a finished position.
pub open spec fn node_played<B: GameBoard, P, V>(
    root: B,
    nodes: Seq<Node<B::Move, P, V>>,
    i: int,
) -> bool {
    let board = board_at(root, nodes, i);
    match nodes[i].children {
        Some(r) => {
            &&& board.spec_outcome() is None
            &&& r.length == board.spec_moves().len()
            &&& forall|k: int|
                0 <= k < r.length ==> (#[trigger] nodes[r.start + k]).last_move == Some(
                    board.spec_moves()[k],
                )
        },
        None => nodes[i].complete_visits > 0 ==> board.spec_outcome() is Some,
    }
}

/// Every node fits the game.
pub open spec fn played<B: GameBoard, P, V>(root: B, nodes: Seq<Node<B::Move, P, V>>) -> bool {
    &&& root.valid()
    &&& forall|i: int| 0 <= i < nodes.len() ==> #[trigger] node_played(root, nodes, i)
}

/// Whether node `a` lies on the way from the root to node `i`, both ends
/// included.
pub open spec fn on_path<M, P, V>(nodes: Seq<Node<M, P, V>>, a: int, i: int) -> bool
    decreases i,
{
    if a == i {
        true
    } else if i <= 0 {
        false
    } else {
        match nodes[i].parent {
            Some(p) => p < i && on_path(nodes, a, p as int),
            None => false,
        }
    }
}

/// Two arenas have the same shape: the same nodes with the same parents,
/// moves and children.
pub open spec fn same_shape<M, P, V>(a: Seq<Node<M, P, V>>, b: Seq<Node<M, P, V>>) -> bool {
    &&& a.len() == b.len()
    &&& forall|i: int|
        0 <= i < a.len() ==> (#[trigger] a[i]).parent == b[i].parent && a[i].last_move
            == b[i].last_move && a[i].children == b[i].children
}

/// Sums of functions that agree on the range agree.
pub proof fn lemma_range_sum_same(f: spec_fn(int) -> int, g: spec_fn(int) -> int, start: int, len: nat)
    requires
        forall|i: int| start <= i < start + len ==> #[trigger] f(i) == g(i),
    ensures
        range_sum(f, start, len) == range_sum(g, start, len),
    decreases len,
{
    if len > 0 {
        lemma_range_sum_same(f, g, start, (len - 1) as nat);
    }
}

/// A sum changes by `d` when one of its summands does.
pub proof fn lemma_range_sum_bump(
    f: spec_fn(int) -> int,
    g: spec_fn(int) -> int,
    start: int,
    len: nat,
    at: int,
    d: int,
)
    requires
        start <= at < start + len,
        g(at) == f(at) + d,
        forall|i: int| start <= i < start + len && i != at ==> #[trigger] f(i) == g(i),
    ensures
        range_sum(g, start, len) == range_sum(f, start, len) + d,
    decreases len,
{
    if at == start + len - 1 {
        lemma_range_sum_same(f, g, start, (len - 1) as nat);
    } else {
        lemma_range_sum_bump(f, g, start, (len - 1) as nat, at, d);
    }
}

/// A sum of numbers that are not negative is not negative, and at least as
/// large as each of them.
pub proof fn lemma_range_sum_ge(f: spec_fn(int) -> int, start: int, len: nat, at: int)
    requires
        start <= at < start + len,
        forall|i: int| start <= i < start + len ==> #[trigger] f(i) >= 0,
    ensures
        range_sum(f, start, len) >= f(at),
        range_sum(f, start, len) >= 0,
    decreases len,
{
    assert(f(start + len - 1) >= 0);
    if len > 1 {
        if at == start + len - 1 {
            lemma_range_sum_ge(f, start, (len - 1) as nat, start);
        } else {
            lemma_range_sum_ge(f, start, (len - 1) as nat, at);
        }
    } else {
        assert(range_sum(f, start, 0) == 0);
    }
}

/// A sum of zeros is zero.
pub proof fn lemma_range_sum_zero(f: spec_fn(int) -> int, start: int, len: nat)
    requires
        forall|i: int| start <= i < start + len ==> #[trigger] f(i) == 0,
    ensures
        range_sum(f, start, len) == 0,
    decreases len,
{
    if len > 0 {
        lemma_range_sum_zero(f, start, (len - 1) as nat);
    }
}

/// The way to a node starts at the root, and only nodes at or before the
/// node lie on it.
pub proof fn lemma_on_path_ends<M, P, V>(nodes: Seq<Node<M, P, V>>, a: int, i: int)
    requires
        linked(nodes),
        0 <= i < nodes.len(),
    ensures
        on_path(nodes, 0, i),
        on_path(nodes, a, i) ==> 0 <= a <= i,
    decreases i,
{
    if i > 0 {
        assert(node_linked(nodes, i));
        lemma_on_path_ends(nodes, a, nodes[i].parent->0 as int);
    }
}

/// With a node, its parent lies on the way.
pub proof fn lemma_on_path_parent<M, P, V>(nodes: Seq<Node<M, P, V>>, a: int, i: int)
    requires
        linked(nodes),
        0 <= i < nodes.len(),
        on_path(nodes, a, i),
        a != 0,
    ensures
        nodes[a].parent is Some,
        on_path(nodes, nodes[a].parent->0 as int, i),
    decreases i,
{
    lemma_on_path_ends(nodes, a, i);
    assert(node_linked(nodes, a));
    if a != i {
        assert(node_linked(nodes, i));
        lemma_on_path_parent(nodes, a, nodes[i].parent->0 as int);
    } else {
        assert(on_path(nodes, nodes[a].parent->0 as int, nodes[a].parent->0 as int));
    }
}

/// At most one child of a node lies on the way.
pub proof fn lemma_on_path_one_child<M, P, V>(nodes: Seq<Node<M, P, V>>, c1: int, c2: int, i: int)
    requires
        linked(nodes),
        0 <= i < nodes.len(),
        on_path(nodes, c1, i),
        on_path(nodes, c2, i),
        c1 != 0,
        c2 != 0,
        nodes[c1].parent == nodes[c2].parent,
    ensures
        c1 == c2,
    decreases i,
{
    lemma_on_path_ends(nodes, c1, i);
    lemma_on_path_ends(nodes, c2, i);
    assert(node_linked(nodes, c1));
    assert(node_linked(nodes, c2));
    assert(node_linked(nodes, i));
    if c1 != i && c2 != i {
        lemma_on_path_one_child(nodes, c1, c2, nodes[i].parent->0 as int);
    } else if c1 == i && c2 != i {
        let p = nodes[i].parent->0 as int;
        lemma_on_path_ends(nodes, c2, p);
    } else if c2 == i && c1 != i {
        let p = nodes[i].parent->0 as int;
        lemma_on_path_ends(nodes, c1, p);
    }
}

/// A node on the way, other than its end, has a child on the way.
pub proof fn lemma_on_path_child<M, P, V>(nodes: Seq<Node<M, P, V>>, a: int, i: int) -> (c: int)
    requires
        linked(nodes),
        0 <= i < nodes.len(),
        on_path(nodes, a, i),
        a != i,
    ensures
        0 < c <= i,
        on_path(nodes, c, i),
        nodes[c].parent == Some(a as usize),
        nodes[a].children is Some,
        nodes[a].children->0.contains(c),
    decreases i,
{
    lemma_on_path_ends(nodes, a, i);
    assert(node_linked(nodes, i));
    let p = nodes[i].parent->0 as int;
    if p == a {
        i
    } else {
        let c = lemma_on_path_child(nodes, a, p);
        c
    }
}

/// The way to a node only depends on the shape of the arena.
pub proof fn lemma_on_path_shape<M, P, V>(
    x: Seq<Node<M, P, V>>,
    y: Seq<Node<M, P, V>>,
    a: int,
    i: int,
)
    requires
        0 <= i < x.len(),
        i < y.len(),
        forall|j: int| 0 <= j <= i ==> (#[trigger] x[j]).parent == y[j].parent,
    ensures
        on_path(x, a, i) == on_path(y, a, i),
    decreases i,
{
    if a != i && i > 0 {
        match x[i].parent {
            Some(p) => {
                if p < i {
                    lemma_on_path_shape(x, y, a, p as int);
                }
            },
            None => {},
        }
    }
}

/// The position at a node only depends on the parents and moves of the
/// nodes up to it.
pub proof fn lemma_board_at_shape<B: GameBoard, P, V>(
    root: B,
    x: Seq<Node<B::Move, P, V>>,
    y: Seq<Node<B::Move, P, V>>,
    i: int,
)
    requires
        0 <= i < x.len(),
        i < y.len(),
        forall|j: int|
            0 <= j <= i ==> (#[trigger] x[j]).parent == y[j].parent && x[j].last_move
                == y[j].last_move,
    ensures
        board_at(root, x, i) == board_at(root, y, i),
    decreases i,
{
    if i > 0 {
        match (x[i].parent, x[i].last_move) {
            (Some(p), Some(mv)) => {
                if p < i {
                    lemma_board_at_shape(root, x, y, p as int);
                }
            },
            _ => {},
        }
    }
}

/// No node has more finished or more waiting visits than the root.
pub proof fn lemma_root_bounds<M, P, V>(nodes: Seq<Node<M, P, V>>, i: int)
    requires
        linked(nodes),
        counted(nodes),
        0 <= i < nodes.len(),
    ensures
        nodes[i].complete_visits <= nodes[0].complete_visits,
        nodes[i].virtual_visits <= nodes[0].virtual_visits,
    decreases i,
{
    if i > 0 {
        assert(node_linked(nodes, i));
        let p = nodes[i].parent->0 as int;
        lemma_root_bounds(nodes, p);
        assert(node_counted(nodes, p));
        let r = nodes[p].children->0;
        lemma_range_sum_ge(complete_of(nodes), r.start as int, r.length as nat, i);
        lemma_range_sum_ge(virtual_of(nodes), r.start as int, r.length as nat, i);
    }
}

/// How the sums over the children change when a number is added to every
/// node on the way to `leaf`: the sum over the children of a node on the
/// way, other than its end, changes by that number, and no other sum
/// changes.
pub proof fn lemma_path_sum<M, P, V>(
    nodes: Seq<Node<M, P, V>>,
    f: spec_fn(int) -> int,
    g: spec_fn(int) -> int,
    leaf: int,
    d: int,
    x: int,
)
    requires
        linked(nodes),
        0 <= leaf < nodes.len(),
        0 <= x < nodes.len(),
        nodes[x].children is Some,
        forall|i: int|
            0 <= i < nodes.len() ==> #[trigger] g(i) == f(i) + if on_path(nodes, i, leaf) {
                d
            } else {
                0
            },
    ensures
        range_sum(g, nodes[x].children->0.start as int, nodes[x].children->0.length as nat)
            == range_sum(f, nodes[x].children->0.start as int, nodes[x].children->0.length as nat)
            + if on_path(nodes, x, leaf) && x != leaf {
            d
        } else {
            0
        },
{
    let r = nodes[x].children->0;
    assert(node_linked(nodes, x));
    if on_path(nodes, x, leaf) && x != leaf {
        let c = lemma_on_path_child(nodes, x, leaf);
        assert forall|i: int| r.start <= i < r.start + r.length && i != c implies #[trigger] f(i) == g(i) by {
            if on_path(nodes, i, leaf) {
                assert(nodes[i].parent == Some(x as usize));
                lemma_on_path_ends(nodes, i, leaf);
                lemma_on_path_one_child(nodes, i, c, leaf);
            }
        }
        lemma_range_sum_bump(f, g, r.start as int, r.length as nat, c, d);
    } else {
        assert forall|i: int| r.start <= i < r.start + r.length implies #[trigger] f(i) == g(i) by {
            if on_path(nodes, i, leaf) {
                assert(nodes[i].parent == Some(x as usize));
                lemma_on_path_ends(nodes, i, leaf);
                lemma_on_path_parent(nodes, i, leaf);
                lemma_on_path_ends(nodes, x, leaf);
            }
        }
        lemma_range_sum_same(f, g, r.start as int, r.length as nat);
    }
}

/// What holds of every search tree: the arena is a tree, the visit counts
/// add up, and the nodes fit the game.
pub open spec fn tree_wf<B: GameBoard, P, V>(root: B, nodes: Seq<Node<B::Move, P, V>>) -> bool {
    &&& linked(nodes)
    &&& counted(nodes)
    &&& played(root, nodes)
    &&& nodes[0].spec_total_visits() <= u64::MAX
}

/// How an arena can change while the search runs: nodes are only added; a
/// node keeps its parent and its move; children and the evaluation by the
/// network, once there, stay as they are; finished visits are never taken
/// back.
pub open spec fn grown_from<M, P, V>(before: Seq<Node<M, P, V>>, after: Seq<Node<M, P, V>>) -> bool {
    &&& before.len() <= after.len()
    &&& forall|i: int|
        0 <= i < before.len() ==> {
            &&& (#[trigger] after[i]).parent == before[i].parent
            &&& after[i].last_move == before[i].last_move
            &&& before[i].children is Some ==> after[i].children == before[i].children
            &&& before[i].net_values is Some ==> after[i].net_values == before[i].net_values
            &&& after[i].complete_visits >= before[i].complete_visits
        }
}

/// A tree that changes in steps of [`grown_from`] has changed by
/// [`grown_from`]: over any number of steps, the children and the
/// evaluation of a node go from absent to present at most once.
pub proof fn lemma_grown_from_chain<M, P, V>(
    a: Seq<Node<M, P, V>>,
    b: Seq<Node<M, P, V>>,
    c: Seq<Node<M, P, V>>,
)
    requires
        grown_from(a, b),
        grown_from(b, c),
    ensures
        grown_from(a, a),
        grown_from(a, c),
{
    assert forall|i: int| 0 <= i < a.len() implies {
        &&& (#[trigger] c[i]).parent == a[i].parent
        &&& c[i].last_move == a[i].last_move
        &&& a[i].children is Some ==> c[i].children == a[i].children
        &&& a[i].net_values is Some ==> c[i].net_values == a[i].net_values
        &&& c[i].complete_visits >= a[i].complete_visits
    } by {
        assert(b[i].parent == a[i].parent);
    }
}

/// The tree after a finished position has been visited: every node on the
/// way to `leaf` has one more finished visit.
pub proof fn lemma_after_terminal<B: GameBoard, P, V>(
    root: B,
    base: Seq<Node<B::Move, P, V>>,
    fin: Seq<Node<B::Move, P, V>>,
    leaf: int,
)
    requires
        tree_wf(root, base),
        base[0].spec_total_visits() < u64::MAX,
        0 <= leaf < base.len(),
        board_at(root, base, leaf).spec_outcome() is Some,
        same_shape(base, fin),
        forall|i: int|
            0 <= i < base.len() ==> {
                &&& (#[trigger] fin[i]).net_values == base[i].net_values
                &&& fin[i].virtual_visits == base[i].virtual_visits
                &&& fin[i].complete_visits == base[i].complete_visits + if on_path(base, i, leaf) {
                    1int
                } else {
                    0int
                }
            },
    ensures
        tree_wf(root, fin),
        base[leaf].children is None,
{
    assert(node_played(root, base, leaf));
    lemma_on_path_ends(base, 0, leaf);
    assert(fin[0].virtual_visits == base[0].virtual_visits);
    assert forall|i: int| 0 <= i < base.len() && (#[trigger] fin[i]).net_values is Some implies fin[i].children is Some by {
        assert(node_linked(base, i));
        assert(fin[i].children == base[i].children);
    }
    lemma_same_shape_linked(base, fin);
    assert forall|x: int| 0 <= x < fin.len() implies #[trigger] node_counted(fin, x) by {
        assert(node_counted(base, x));
        assert(fin[x].net_values == base[x].net_values);
        assert(base[x].children == fin[x].children);
        if fin[x].children is Some {
            let r = fin[x].children->0;
            assert(node_linked(base, x));
            lemma_path_sum(base, complete_of(base), complete_of(fin), leaf, 1, x);
            assert forall|i: int| r.start <= i < r.start + r.length implies #[trigger] virtual_of(
                base,
            )(i) == virtual_of(fin)(i) by {
                assert(fin[i].virtual_visits == base[i].virtual_visits);
            }
            lemma_range_sum_same(virtual_of(base), virtual_of(fin), r.start as int, r.length as nat);
        }
    }
    assert forall|x: int| 0 <= x < fin.len() implies #[trigger] node_played(root, fin, x) by {
        assert(node_played(root, base, x));
        lemma_board_at_shape(root, base, fin, x);
        assert(base[x].children == fin[x].children);
        assert(fin[x].net_values == base[x].net_values);
        if fin[x].children is None {
            if on_path(base, x, leaf) && x != leaf {
                let c = lemma_on_path_child(base, x, leaf);
            }
        } else {
            let r = fin[x].children->0;
            assert(node_linked(base, x));
            assert forall|k: int| 0 <= k < r.length implies (#[trigger] fin[r.start + k]).last_move
                == Some(board_at(root, fin, x).spec_moves()[k]) by {
                assert(base[r.start + k].last_move == fin[r.start + k].last_move);
            }
        }
    }
}

/// An arena with the shape of a tree is a tree.
pub proof fn lemma_same_shape_linked<M, P, V>(base: Seq<Node<M, P, V>>, fin: Seq<Node<M, P, V>>)
    requires
        linked(base),
        same_shape(base, fin),
        forall|i: int|
            0 <= i < base.len() ==> ((#[trigger] fin[i]).net_values is Some ==> fin[i].children is Some),
    ensures
        linked(fin),
{
    assert forall|i: int| 0 <= i < fin.len() implies #[trigger] node_linked(fin, i) by {
        assert(node_linked(base, i));
        assert(base[i].parent == fin[i].parent);
        if i != 0 {
            let p = base[i].parent->0 as int;
            assert(base[p].children == fin[p].children);
        }
    }
    assert forall|i: int, c: int|
        0 <= i < fin.len() && 0 <= c < fin.len() && (fin[i].children matches Some(r) && r.contains(
            c,
        )) implies (#[trigger] fin[c]).parent == Some(i as usize) || !#[trigger] node_linked(
        fin,
        i,
    ) by {
        assert(base[i].children == fin[i].children);
        assert(base[c].parent == fin[c].parent);
        assert(node_linked(base, i));
    }
}

/// The tree after the evaluation of `leaf` has arrived: every node on the
/// way to it has one more finished visit and one waiting visit less.
pub proof fn lemma_after_apply<B: GameBoard, P, V>(
    root: B,
    base: Seq<Node<B::Move, P, V>>,
    fin: Seq<Node<B::Move, P, V>>,
    leaf: int,
)
    requires
        tree_wf(root, base),
        0 <= leaf < base.len(),
        base[leaf].in_flight(),
        same_shape(base, fin),
        fin[leaf].net_values is Some,
        forall|i: int|
            0 <= i < base.len() ==> {
                &&& i != leaf ==> (#[trigger] fin[i]).net_values == base[i].net_values
                &&& fin[i].virtual_visits == base[i].virtual_visits - if on_path(base, i, leaf) {
                    1int
                } else {
                    0int
                }
                &&& fin[i].complete_visits == base[i].complete_visits + if on_path(base, i, leaf) {
                    1int
                } else {
                    0int
                }
            },
    ensures
        tree_wf(root, fin),
{
    assert(fin[leaf].children == base[leaf].children);
    lemma_on_path_ends(base, 0, leaf);
    assert(fin[0].virtual_visits == base[0].virtual_visits - 1);
    assert forall|i: int| 0 <= i < base.len() && (#[trigger] fin[i]).net_values is Some implies fin[i].children is Some by {
        assert(node_linked(base, i));
        assert(fin[i].children == base[i].children);
    }
    lemma_same_shape_linked(base, fin);
    assert forall|x: int| 0 <= x < fin.len() implies #[trigger] node_counted(fin, x) by {
        assert(node_counted(base, x));
        assert(base[x].children == fin[x].children);
        if fin[x].children is Some {
            assert(node_linked(base, x));
            lemma_path_sum(base, complete_of(base), complete_of(fin), leaf, 1, x);
            lemma_path_sum(base, virtual_of(base), virtual_of(fin), leaf, -1, x);
        } else {
            if on_path(base, x, leaf) && x != leaf {
                let c = lemma_on_path_child(base, x, leaf);
            }
        }
    }
    assert forall|x: int| 0 <= x < fin.len() implies #[trigger] node_played(root, fin, x) by {
        assert(node_played(root, base, x));
        lemma_board_at_shape(root, base, fin, x);
        assert(base[x].children == fin[x].children);
        if fin[x].children is None {
            if on_path(base, x, leaf) && x != leaf {
                let c = lemma_on_path_child(base, x, leaf);
            }
        } else {
            let r = fin[x].children->0;
            assert(node_linked(base, x));
            assert forall|k: int| 0 <= k < r.length implies (#[trigger] fin[r.start + k]).last_move
                == Some(board_at(root, fin, x).spec_moves()[k]) by {
                assert(base[r.start + k].last_move == fin[r.start + k].last_move);
            }
        }
    }
}

/// The tree after `leaf` has been expanded: it has one fresh child per move
/// of its position, and every node on the way to it has one more waiting
/// visit.
pub proof fn lemma_after_expand<B: GameBoard, P, V>(
    root: B,
    base: Seq<Node<B::Move, P, V>>,
    fin: Seq<Node<B::Move, P, V>>,
    leaf: int,
)
    requires
        tree_wf(root, base),
        base[0].spec_total_visits() < u64::MAX,
        0 <= leaf < base.len(),
        base[leaf].children is None,
        board_at(root, base, leaf).spec_outcome() is None,
        0 < board_at(root, base, leaf).spec_moves().len() <= u8::MAX,
        fin.len() == base.len() + board_at(root, base, leaf).spec_moves().len(),
        fin.len() <= usize::MAX,
        fin[leaf].children == Some(
            IdxRange {
                start: base.len() as usize,
                length: board_at(root, base, leaf).spec_moves().len() as u8,
            },
        ),
        forall|i: int|
            0 <= i < base.len() ==> {
                &&& (#[trigger] fin[i]).parent == base[i].parent
                &&& fin[i].last_move == base[i].last_move
                &&& i != leaf ==> fin[i].children == base[i].children
                &&& fin[i].net_values == base[i].net_values
                &&& fin[i].complete_visits == base[i].complete_visits
                &&& fin[i].virtual_visits == base[i].virtual_visits + if on_path(base, i, leaf) {
                    1int
                } else {
                    0int
                }
            },
        forall|i: int|
            base.len() <= i < fin.len() ==> {
                &&& (#[trigger] fin[i]).parent == Some(leaf as usize)
                &&& fin[i].last_move == Some(
                    board_at(root, base, leaf).spec_moves()[i - base.len()],
                )
                &&& fin[i].children is None
                &&& fin[i].net_values is None
                &&& fin[i].complete_visits == 0
                &&& fin[i].virtual_visits == 0
            },
    ensures
        tree_wf(root, fin),
{
    let n = base.len() as int;
    let moves = board_at(root, base, leaf).spec_moves();
    let fresh = IdxRange { start: n as usize, length: moves.len() as u8 };
    assert(node_linked(base, leaf));
    assert(node_counted(base, leaf));
    assert(node_played(root, base, leaf));
    lemma_on_path_ends(base, 0, leaf);
    assert(fin[0].complete_visits == base[0].complete_visits);
    assert forall|i: int| 0 <= i < fin.len() implies #[trigger] node_linked(fin, i) by {
        if i < n {
            assert(node_linked(base, i));
            if i != 0 {
                let p = base[i].parent->0 as int;
                assert(fin[p].parent == base[p].parent);
                if p == leaf {
                    assert(false);
                }
            }
        } else {
            assert(fresh.contains(i));
        }
    }
    assert forall|i: int, c: int|
        0 <= i < fin.len() && 0 <= c < fin.len() && (fin[i].children matches Some(r) && r.contains(
            c,
        )) implies (#[trigger] fin[c]).parent == Some(i as usize) || !#[trigger] node_linked(
        fin,
        i,
    ) by {
        if i < n && i != leaf {
            assert(node_linked(base, i));
            assert(fin[i].children == base[i].children);
            assert(fin[c].parent == base[c].parent);
        }
    }
    assert(linked(fin));
    let prefix = fin.subrange(0, n);
    assert forall|x: int| 0 <= x < fin.len() implies #[trigger] node_counted(fin, x) by {
        if x < n && x != leaf {
            assert(node_counted(base, x));
            assert(fin[x].children == base[x].children);
            if fin[x].children is Some {
                let r = fin[x].children->0;
                assert(node_linked(base, x));
                lemma_path_sum(base, virtual_of(base), virtual_of(fin), leaf, 1, x);
                assert forall|i: int| r.start <= i < r.start + r.length implies #[trigger] complete_of(
                    base,
                )(i) == complete_of(fin)(i) by {
                    assert(fin[i].complete_visits == base[i].complete_visits);
                }
                lemma_range_sum_same(
                    complete_of(base),
                    complete_of(fin),
                    r.start as int,
                    r.length as nat,
                );
            } else {
                if on_path(base, x, leaf) {
                    let c = lemma_on_path_child(base, x, leaf);
                }
            }
        } else if x == leaf {
            assert forall|i: int| fresh.start <= i < fresh.start + fresh.length implies #[trigger] complete_of(
                fin,
            )(i) == 0 by {
                assert(fin[i].complete_visits == 0);
            }
            assert forall|i: int| fresh.start <= i < fresh.start + fresh.length implies #[trigger] virtual_of(
                fin,
            )(i) == 0 by {
                assert(fin[i].virtual_visits == 0);
            }
            lemma_range_sum_zero(complete_of(fin), fresh.start as int, fresh.length as nat);
            lemma_range_sum_zero(virtual_of(fin), fresh.start as int, fresh.length as nat);
            assert(on_path(base, leaf, leaf));
        } else {
            assert(fin[x].children is None);
        }
    }
    assert forall|x: int| 0 <= x < fin.len() implies #[trigger] node_played(root, fin, x) by {
        if x < n {
            assert(node_played(root, base, x));
            lemma_board_at_shape(root, base, fin, x);
            if x != leaf {
                assert(fin[x].children == base[x].children);
                if fin[x].children is Some {
                    let r = fin[x].children->0;
                    assert(node_linked(base, x));
                    assert forall|k: int| 0 <= k < r.length implies (#[trigger] fin[r.start
                        + k]).last_move == Some(board_at(root, fin, x).spec_moves()[k]) by {
                        assert(base[r.start + k].last_move == fin[r.start + k].last_move);
                    }
                }
            } else {
                assert forall|k: int| 0 <= k < fresh.length implies (#[trigger] fin[fresh.start
                    + k]).last_move == Some(board_at(root, fin, x).spec_moves()[k]) by {
                    assert(fin[n + k].parent == Some(leaf as usize));
                }
            }
        }
    }
}

/// Of two nodes on the way to `i`, the earlier one lies on the way to the
/// parent of the later one.
pub proof fn lemma_on_path_below<M, P, V>(nodes: Seq<Node<M, P, V>>, a: int, b: int, i: int)
    requires
        linked(nodes),
        0 <= i < nodes.len(),
        on_path(nodes, a, i),
        on_path(nodes, b, i),
        a < b,
    ensures
        nodes[b].parent is Some,
        on_path(nodes, a, nodes[b].parent->0 as int),
        a <= nodes[b].parent->0,
    decreases i,
{
    lemma_on_path_ends(nodes, a, i);
    lemma_on_path_ends(nodes, b, i);
    assert(node_linked(nodes, b));
    assert(node_linked(nodes, i));
    if b != i {
        lemma_on_path_below(nodes, a, b, nodes[i].parent->0 as int);
    } else {
        lemma_on_path_ends(nodes, a, nodes[b].parent->0 as int);
    }
}

/// Above a node with a waiting visit, every node has one.
pub proof fn lemma_path_waiting<M, P, V>(nodes: Seq<Node<M, P, V>>, a: int, i: int)
    requires
        linked(nodes),
        counted(nodes),
        0 <= i < nodes.len(),
        on_path(nodes, a, i),
        nodes[i].virtual_visits >= 1,
    ensures
        nodes[a].virtual_visits >= 1,
    decreases i,
{
    if a != i {
        assert(node_linked(nodes, i));
        let p = nodes[i].parent->0 as int;
        assert(node_counted(nodes, p));
        let r = nodes[p].children->0;
        lemma_range_sum_ge(virtual_of(nodes), r.start as int, r.length as nat, i);
        lemma_path_waiting(nodes, a, p);
    }
}

/// A search tree: the position at the root and the arena of nodes. Slot zero
/// of the arena is the root.
pub struct Tree<B: GameBoard, P, V> {
    pub(crate) root_board: B,
    pub(crate) nodes: Vec<Node<B::Move, P, V>>,
}

impl<B: GameBoard, P, V> View for Tree<B, P, V> {
    type V = Seq<Node<B::Move, P, V>>;

    open(crate) spec fn view(&self) -> Seq<Node<B::Move, P, V>> {
        self.nodes@
    }
}

impl<B: GameBoard, P, V> Tree<B, P, V> {
    /// What holds of every tree that this library hands out, see [`tree_wf`].
    pub open(crate) spec fn wf(&self) -> bool {
        tree_wf(self.root_board, self.nodes@)
    }

    /// The position at the root.
    pub open(crate) spec fn root(&self) -> B {
        self.root_board
    }
}

impl<B: GameBoard, P: Copy, V: Copy> Tree<B, P, V> {

    /// The tree of a position that nothing has been searched from: the root
    /// alone. The position must not be finished.
    pub fn new<N: Numeric<P, V>>(root_board: B, numeric: &N) -> (r: Self)
        requires
            root_board.valid(),
            root_board.spec_outcome() is None,
        ensures
            r.wf(),
            r.root() == root_board,
            r@.len() == 1,
            r@[0].parent is None,
            r@[0].last_move is None,
            r@[0].children is None,
            r@[0].net_values is None,
            r@[0].complete_visits == 0,
            r@[0].virtual_visits == 0,
    {
        let root = Node::new(None, None, numeric.uniform_prior(), numeric.zero_values());
        let mut nodes: Vec<Node<B::Move, P, V>> = Vec::new();
        nodes.push(root);
        proof {
            assert(node_linked(nodes@, 0));
            assert(node_counted(nodes@, 0));
            assert(node_played(root_board, nodes@, 0));
        }
        Tree { root_board, nodes }
    }

    /// The number of nodes.
    pub fn len(&self) -> (r: usize)
        ensures
            r == self@.len(),
    {
        self.nodes.len()
    }

    /// The position at the root.
    pub fn root_board(&self) -> (r: &B)
        ensures
            *r == self.root(),
    {
        &self.root_board
    }

    /// The node in slot `index`.
    pub fn node(&self, index: usize) -> (r: &Node<B::Move, P, V>)
        requires
            index < self@.len(),
        ensures
            *r == self@[index as int],
    {
        &self.nodes[index]
    }

    /// The mean of the values that have come up to the root, as the player
    /// who moves at the root sees them: what [`Numeric::mean`] makes of the
    /// sum of the values of the root and of its finished visits. The root
    /// must have finished visits.
    pub fn values<N: Numeric<P, V>>(&self, numeric: &N) -> (r: V)
        requires
            self.wf(),
            self@[0].complete_visits > 0,
        ensures
            call_ensures(N::mean, (numeric, &self@[0].sum_values, self@[0].complete_visits), r),
    {
        numeric.mean(&self.nodes[0].sum_values, self.nodes[0].complete_visits)
    }

    /// The finished visits of the root.
    pub fn root_visits(&self) -> (r: u64)
        requires
            self.wf(),
        ensures
            r == self@[0].complete_visits,
    {
        self.nodes[0].complete_visits
    }

    /// All visits of the root, the finished and the waiting ones. No node
    /// has more of either kind.
    pub fn root_total_visits(&self) -> (r: u64)
        requires
            self.wf(),
        ensures
            r == self@[0].spec_total_visits(),
    {
        self.nodes[0].complete_visits + self.nodes[0].virtual_visits
    }
}

/// Below a node, no node has a waiting visit, if no node below it and not
/// the node itself waits for its evaluation.
proof fn lemma_drained_from<M, P, V>(nodes: Seq<Node<M, P, V>>, i: int)
    requires
        linked(nodes),
        counted(nodes),
        0 <= i < nodes.len(),
        forall|j: int| 0 <= j < nodes.len() ==> !(#[trigger] nodes[j]).in_flight(),
    ensures
        nodes[i].virtual_visits == 0,
    decreases nodes.len() - i,
{
    assert(node_counted(nodes, i));
    assert(node_linked(nodes, i));
    if nodes[i].children is Some {
        let r = nodes[i].children->0;
        assert forall|c: int| r.start <= c < r.start + r.length implies #[trigger] virtual_of(nodes)(
            c,
        ) == 0 by {
            lemma_drained_from(nodes, c);
        }
        lemma_range_sum_zero(virtual_of(nodes), r.start as int, r.length as nat);
        assert(!nodes[i].in_flight());
    }
}

impl<B: GameBoard, P: Copy, V: Copy> Tree<B, P, V> {
    /// Once a node has been expanded and evaluated, the finished visits of
    /// its children add up to its own finished visits less one: the one that
    /// brought its own evaluation. This holds of the root in particular.
    pub proof fn lemma_children_visits(self, i: int)
        requires
            self.wf(),
            0 <= i < self@.len(),
            self@[i].children is Some,
            self@[i].net_values is Some,
        ensures
            children_complete(self@, i) == self@[i].complete_visits - 1,
    {
        assert(node_counted(self@, i));
    }

    /// While an expanded node waits for its evaluation, the finished visits
    /// of its children add up to its own.
    pub proof fn lemma_children_visits_waiting(self, i: int)
        requires
            self.wf(),
            0 <= i < self@.len(),
            self@[i].in_flight(),
        ensures
            children_complete(self@, i) == self@[i].complete_visits,
    {
        assert(node_counted(self@, i));
    }

    /// Once no node waits for its evaluation, no node has a waiting visit.
    pub proof fn lemma_drained(self, i: int)
        requires
            self.wf(),
            0 <= i < self@.len(),
            forall|j: int| 0 <= j < self@.len() ==> !(#[trigger] self@[j]).in_flight(),
        ensures
            self@[i].virtual_visits == 0,
    {
        lemma_drained_from(self@, i);
    }

    /// No node has more finished visits than the root, and none more
    /// waiting ones.
    pub proof fn lemma_root_has_most(self, i: int)
        requires
            self.wf(),
            0 <= i < self@.len(),
        ensures
            self@[i].complete_visits <= self@[0].complete_visits,
            self@[i].virtual_visits <= self@[0].virtual_visits,
    {
        lemma_root_bounds(self@, i);
    }

    /// The child of the root with the most finished visits; of several with
    /// the most, the first. The root must have been expanded.
    pub fn best_child(&self) -> (r: usize)
        requires
            self.wf(),
            self@[0].children is Some,
        ensures
            self@[0].children->0.contains(r as int),
            forall|c: int|
                self@[0].children->0.contains(c) ==> self@[c].complete_visits
                    <= self@[r as int].complete_visits,
            forall|c: int|
                self@[0].children->0.contains(c) && c < r ==> self@[c].complete_visits
                    < self@[r as int].complete_visits,
    {
        proof {
            assert(node_linked(self@, 0));
        }
        let children = self.nodes[0].children.unwrap();
        let mut best: usize = children.start;
        let mut c: usize = children.start + 1;
        let end: usize = children.start + children.length as usize;
        while c < end
            invariant
                children.start < c <= end,
                end == children.end(),
                end <= self.nodes@.len(),
                children.start <= best < c,
                forall|j: int|
                    children.start <= j < c ==> self.nodes@[j].complete_visits
                        <= self.nodes@[best as int].complete_visits,
                forall|j: int|
                    children.start <= j < best ==> self.nodes@[j].complete_visits
                        < self.nodes@[best as int].complete_visits,
            decreases end - c,
        {
            if self.nodes[c].complete_visits > self.nodes[best].complete_visits {
                best = c;
            }
            c += 1;
        }
        best
    }

    /// Whether `mv` is the move to the child of the root with the most
    /// finished visits; of several children with the most, the first
    /// counts.
    pub open spec fn leads_to_most_visited(&self, mv: B::Move) -> bool {
        exists|best: int|
            {
                &&& #[trigger] self@[0].children->0.contains(best)
                &&& self@[best].last_move == Some(mv)
                &&& forall|c: int|
                    self@[0].children->0.contains(c) ==> self@[c].complete_visits
                        <= self@[best].complete_visits
                &&& forall|c: int|
                    self@[0].children->0.contains(c) && c < best ==> self@[c].complete_visits
                        < self@[best].complete_visits
            }
    }

    /// The move to the child of the root that [`Tree::best_child`] names.
    pub fn best_move(&self) -> (r: B::Move)
        requires
            self.wf(),
            self@[0].children is Some,
        ensures
            self.leads_to_most_visited(r),
    {
        let best = self.best_child();
        proof {
            assert(node_linked(self@, 0));
            assert(node_played(self.root(), self@, 0));
            let children = self@[0].children->0;
            let k = best - children.start;
            assert(self@[children.start + k].last_move is Some);
        }
        let mv = self.nodes[best].last_move.unwrap();
        proof {
            assert(self@[0].children->0.contains(best as int));
        }
        mv
    }

    /// The finished visits of each child of the root, in the order of the
    /// moves, and the number they add up to once the root has been
    /// evaluated: the finished visits of the root less one. Each count
    /// divided by that number is the policy that the search has found.
    pub fn policy(&self) -> (r: (Vec<u64>, u64))
        requires
            self.wf(),
            self@[0].children is Some,
            self@[0].net_values is Some,
        ensures
            r.0@.len() == self@[0].children->0.length,
            forall|k: int|
                0 <= k < r.0@.len() ==> r.0@[k] == self@[self@[0].children->0.start
                    + k].complete_visits,
            r.1 == self@[0].complete_visits - 1,
            r.1 == children_complete(self@, 0),
    {
        proof {
            assert(node_linked(self@, 0));
            assert(node_counted(self@, 0));
            lemma_range_sum_ge(
                complete_of(self@),
                self@[0].children->0.start as int,
                self@[0].children->0.length as nat,
                self@[0].children->0.start as int,
            );
        }
        let children = self.nodes[0].children.unwrap();
        let mut counts: Vec<u64> = Vec::new();
        let mut k: usize = 0;
        while k < children.length as usize
            invariant
                k <= children.length,
                children.wf(),
                children.end() <= self.nodes@.len(),
                counts@.len() == k,
                forall|j: int|
                    0 <= j < k ==> counts@[j] == self.nodes@[children.start + j].complete_visits,
            decreases children.length - k,
        {
            counts.push(self.nodes[children.get(k)].complete_visits);
            k += 1;
        }
        (counts, self.nodes[0].complete_visits - 1)
    }
}

} // verus!
