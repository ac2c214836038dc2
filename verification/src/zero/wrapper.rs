//! The search as a whole: walks are gathered into batches, the batches are
//! handed out for evaluation, and the evaluations are taken into the tree.

use crate::zero::game::{GameBoard, Numeric};
use crate::zero::node::Node;
use crate::zero::step::{
    apply_evaluation, visited_terminal, zero_step_gather, FpuMode, ZeroEvaluation, ZeroRequest,
};
use crate::zero::tree::{
    board_at, grown_from, lemma_board_at_shape, lemma_grown_from_chain, lemma_on_path_ends, linked,
    node_linked, node_played, Tree,
};
use vstd::prelude::*;

verus! {

/// How the search is cut into batches.
#[derive(Debug, Copy, Clone, PartialEq, Eq, Structural)]
pub struct ZeroSettings {
    /// How many positions are handed out for evaluation at once, at most.
    pub batch_size: usize,
}

/// A search that hands out requests for evaluations in place of making
/// them: the tree, the visits the root is to reach, and the nodes whose
/// evaluations have been asked for and have not come back yet.
pub struct ZeroState<B: GameBoard, P, V> {
    pub(crate) tree: Tree<B, P, V>,
    pub(crate) target_visits: u64,
    pub(crate) settings: ZeroSettings,
    pub(crate) expected_nodes: Vec<usize>,
}

/// What a run of the search ends in.
#[derive(Debug)]
pub enum RunResult<B> {
    /// Positions to evaluate; the search goes on once their evaluations are
    /// handed back, in this order.
    Request(Vec<ZeroRequest<B>>),
    /// The root has all the visits that were asked for.
    Done,
}

/// Why evaluations were not taken into the search.
#[derive(Debug, Copy, Clone, PartialEq, Eq, Structural)]
pub enum RunError {
    /// Evaluations were asked for and none were handed back.
    MissingResponse,
    /// Evaluations were handed back that nothing had asked for.
    UnexpectedResponse,
    /// There is not one evaluation per request.
    ResponseCount,
    /// An evaluation does not have one prior per move of its position.
    PolicyLength,
}

/// The nodes that wait for their evaluation are the expected ones, each
/// expected once.
pub open spec fn pending<M, P, V>(nodes: Seq<Node<M, P, V>>, expected: Seq<usize>) -> bool {
    &&& expected.no_duplicates()
    &&& forall|k: int| 0 <= k < expected.len() ==> (#[trigger] expected[k]) < nodes.len()
    &&& forall|i: int|
        0 <= i < nodes.len() ==> ((#[trigger] nodes[i]).in_flight() <==> expected.contains(i as usize))
}

/// The evaluations that were handed back, if any were.
pub open spec fn handed_back<P, V>(response: Option<Vec<ZeroEvaluation<P, V>>>) -> Option<
    Seq<ZeroEvaluation<P, V>>,
> {
    match response {
        Some(evals) => Some(evals@),
        None => None,
    }
}

/// Whether `evals` can be the answer to the requests for the nodes
/// `expected`, and if not, why.
pub open spec fn response_check<M, P, V>(
    nodes: Seq<Node<M, P, V>>,
    expected: Seq<usize>,
    evals: Option<Seq<ZeroEvaluation<P, V>>>,
) -> Result<(), RunError> {
    match evals {
        None => if expected.len() == 0 {
            Ok(())
        } else {
            Err(RunError::MissingResponse)
        },
        Some(evals) => if expected.len() == 0 {
            Err(RunError::UnexpectedResponse)
        } else if evals.len() != expected.len() {
            Err(RunError::ResponseCount)
        } else if exists|k: int|
            0 <= k < expected.len() && (#[trigger] evals[k]).policy@.len()
                != nodes[expected[k] as int].children->0.length {
            Err(RunError::PolicyLength)
        } else {
            Ok(())
        },
    }
}

impl ZeroSettings {
    /// Settings with the given number of requests per batch.
    pub fn new(batch_size: usize) -> (r: Self)
        ensures
            r.batch_size == batch_size,
    {
        ZeroSettings { batch_size }
    }
}

impl<B: GameBoard, P: Copy, V: Copy> ZeroState<B, P, V> {
    /// What holds of every search state that this library hands out.
    pub open(crate) spec fn wf(&self) -> bool {
        &&& self.tree.wf()
        &&& self.settings.batch_size > 0
        &&& pending(self.tree@, self.expected_nodes@)
    }

    /// The tree of the search.
    pub open(crate) spec fn spec_tree(&self) -> Tree<B, P, V> {
        self.tree
    }

    /// The nodes whose evaluations have been asked for and have not come
    /// back, in the order of the requests.
    pub open(crate) spec fn expected(&self) -> Seq<usize> {
        self.expected_nodes@
    }

    /// The visits that the root is to reach.
    pub open(crate) spec fn target(&self) -> u64 {
        self.target_visits
    }

    /// The size of a batch.
    pub open(crate) spec fn batch_size(&self) -> usize {
        self.settings.batch_size
    }

    /// A search that grows `tree` until its root has `target_visits`
    /// visits. Nothing may be waiting for its evaluation in the tree.
    pub fn new(tree: Tree<B, P, V>, target_visits: u64, settings: ZeroSettings) -> (r: Self)
        requires
            tree.wf(),
            settings.batch_size > 0,
            forall|i: int| 0 <= i < tree@.len() ==> !(#[trigger] tree@[i]).in_flight(),
        ensures
            r.wf(),
            r.spec_tree() == tree,
            r.target() == target_visits,
            r.batch_size() == settings.batch_size,
            r.expected().len() == 0,
    {
        ZeroState { tree, target_visits, settings, expected_nodes: Vec::new() }
    }

    /// The tree as it stands.
    pub fn tree(&self) -> (r: &Tree<B, P, V>)
        ensures
            *r == self.spec_tree(),
    {
        &self.tree
    }

    /// Gives up the search for its tree. Requests that are still out are
    /// dropped; their nodes keep waiting.
    pub fn into_tree(self) -> (r: Tree<B, P, V>)
        ensures
            r == self.spec_tree(),
    {
        self.tree
    }

    /// Whether `evals` fit the requests that are out.
    fn check_response(&self, evals: &Option<Vec<ZeroEvaluation<P, V>>>) -> (r: Result<(), RunError>)
        requires
            self.wf(),
        ensures
            r == response_check(self.tree@, self.expected_nodes@, handed_back(*evals)),
    {
        match evals {
            None => {
                if self.expected_nodes.len() == 0 {
                    Ok(())
                } else {
                    Err(RunError::MissingResponse)
                }
            },
            Some(given) => {
                if self.expected_nodes.len() == 0 {
                    return Err(RunError::UnexpectedResponse);
                }
                if given.len() != self.expected_nodes.len() {
                    return Err(RunError::ResponseCount);
                }
                let mut k: usize = 0;
                while k < given.len()
                    invariant
                        self.wf(),
                        k <= given@.len(),
                        given@.len() == self.expected_nodes@.len(),
                        handed_back(*evals) == Some(given@),
                        forall|j: int|
                            0 <= j < k ==> (#[trigger] given@[j]).policy@.len()
                                == self.tree@[self.expected_nodes@[j] as int].children->0.length,
                    decreases given@.len() - k,
                {
                    let node = self.expected_nodes[k];
                    proof {
                        assert(self.expected_nodes@.contains(node));
                        assert(self.tree@[node as int].in_flight());
                    }
                    let children = self.tree.nodes[node].children.unwrap();
                    if given[k].policy.len() != children.length as usize {
                        proof {
                            assert(given@[k as int].policy@.len()
                                != self.tree@[self.expected_nodes@[k as int] as int].children->0.length);
                        }
                        return Err(RunError::PolicyLength);
                    }
                    k += 1;
                }
                Ok(())
            },
        }
    }

    /// Whether nothing waits any more: no request is out and no node has a
    /// waiting visit, so all visits of the root are finished ones.
    pub open spec fn drained(&self) -> bool {
        &&& self.expected().len() == 0
        &&& forall|i: int|
            0 <= i < self.spec_tree()@.len() ==> (#[trigger] self.spec_tree()@[i]).virtual_visits == 0
    }

    /// What a round of walks leaves behind, see [`ZeroState::gather_batch`].
    pub open spec fn batch_gathered(before: Self, after: Self, result: RunResult<B>) -> bool {
        let old_total = before.spec_tree()@[0].spec_total_visits();
        let new_total = after.spec_tree()@[0].spec_total_visits();
        &&& after.target() == before.target()
        &&& after.batch_size() == before.batch_size()
        &&& after.spec_tree().root() == before.spec_tree().root()
        &&& grown_from(before.spec_tree()@, after.spec_tree()@)
        &&& old_total <= new_total
        &&& new_total <= old_total || new_total <= before.target()
        &&& match result {
            RunResult::Done => {
                &&& after.drained()
                &&& new_total >= before.target()
                &&& after.spec_tree()@[0].complete_visits == new_total
            },
            RunResult::Request(requests) => {
                &&& 0 < requests@.len() <= before.batch_size()
                &&& old_total + requests@.len() <= new_total
                &&& requests@.len() < before.batch_size() ==> new_total >= before.target()
                &&& after.expected().len() == requests@.len()
                &&& forall|k: int|
                    0 <= k < requests@.len() ==> {
                        &&& (#[trigger] requests@[k]).node == after.expected()[k]
                        &&& requests@[k].board == board_at(
                            after.spec_tree().root(),
                            after.spec_tree()@,
                            requests@[k].node as int,
                        )
                    }
            },
        }
    }

    /// Takes the evaluations of the requests that are out into the tree, in
    /// the order of the requests. With no request out there is nothing to
    /// hand back. Afterwards nothing waits any more.
    ///
    /// Evaluations that do not fit the requests are refused, and the search
    /// stays as it was.
    pub fn apply_response<N: Numeric<P, V>>(
        &mut self,
        response: Option<Vec<ZeroEvaluation<P, V>>>,
        numeric: &N,
    ) -> (r: Result<(), RunError>)
        requires
            old(self).wf(),
        ensures
            final(self).wf(),
            final(self).target() == old(self).target(),
            final(self).batch_size() == old(self).batch_size(),
            final(self).spec_tree().root() == old(self).spec_tree().root(),
            grown_from(old(self).spec_tree()@, final(self).spec_tree()@),
            r == response_check(old(self).spec_tree()@, old(self).expected(), handed_back(response)),
            r is Err ==> final(self).spec_tree()@ == old(self).spec_tree()@ && final(self).expected()
                == old(self).expected(),
            r is Ok ==> {
                &&& final(self).drained()
                &&& final(self).spec_tree()@.len() == old(self).spec_tree()@.len()
                &&& final(self).spec_tree()@[0].spec_total_visits() == old(
                    self,
                ).spec_tree()@[0].spec_total_visits()
                &&& response matches Some(evals) ==> forall|k: int|
                    0 <= k < evals@.len() ==> (#[trigger] final(self).spec_tree()@[old(
                        self,
                    ).expected()[k] as int]).net_values == Some(evals@[k].values)
                &&& response matches Some(evals) ==> forall|k: int, t: int|
                    0 <= k < evals@.len() && 0 <= t < evals@[k].policy@.len() ==> final(self).spec_tree()@[old(
                        self,
                    ).spec_tree()@[old(self).expected()[k] as int].children->0.start + t].net_policy
                        == #[trigger] evals@[k].policy@[t]
            },
    {
        let ghost before = self.tree@;
        let ghost root = self.tree.root();
        proof {
            lemma_grown_from_chain(before, before, before);
        }
        match self.check_response(&response) {
            Err(e) => {
                return Err(e);
            },
            Ok(()) => {},
        }
        let ghost expected = self.expected_nodes@;
        match response {
            None => {},
            Some(evals) => {
                let mut k: usize = 0;
                while k < evals.len()
                    invariant
                        k <= evals@.len(),
                        evals@.len() == expected.len(),
                        self.expected_nodes@ == expected,
                        expected.no_duplicates(),
                        self.tree.wf(),
                        self.tree.root() == root,
                        self.settings == old(self).settings,
                        self.target_visits == old(self).target_visits,
                        self.tree@.len() == before.len(),
                        grown_from(before, self.tree@),
                        self.tree@[0].spec_total_visits() == before[0].spec_total_visits(),
                        forall|j: int| 0 <= j < expected.len() ==> (#[trigger] expected[j]) < before.len(),
                        forall|j: int|
                            k <= j < expected.len() ==> (#[trigger] evals@[j]).policy@.len()
                                == self.tree@[expected[j] as int].children->0.length,
                        forall|j: int|
                            0 <= j < k ==> (#[trigger] self.tree@[expected[j] as int]).net_values
                                == Some(evals@[j].values),
                        forall|j: int|
                            0 <= j < expected.len() ==> (#[trigger] before[expected[j] as int]).children is Some
                                && evals@[j].policy@.len() == before[expected[j] as int].children->0.length,
                        forall|j: int, t: int|
                            0 <= j < k && 0 <= t < evals@[j].policy@.len()
                                ==> self.tree@[before[expected[j] as int].children->0.start + t].net_policy
                                == #[trigger] evals@[j].policy@[t],
                        forall|i: int|
                            0 <= i < before.len() ==> ((#[trigger] self.tree@[i]).in_flight() <==> exists|
                                j: int,
                            |
                                k <= j < expected.len() && expected[j] == i),
                    decreases evals@.len() - k,
                {
                    let node = self.expected_nodes[k];
                    let ghost prior = self.tree@;
                    proof {
                        assert(expected[k as int] == node);
                        assert(prior[node as int].in_flight());
                        assert(node_linked(prior, node as int));
                    }
                    let applied_now = apply_evaluation(
                        &mut self.tree,
                        node,
                        evals[k].values,
                        &evals[k].policy,
                        numeric,
                    );
                    proof {
                        let now = self.tree@;
                        assert(applied_now is Ok);
                        lemma_grown_from_chain(before, prior, now);
                        lemma_on_path_ends(prior, 0, node as int);
                        assert forall|i: int| 0 <= i < before.len() implies ((#[trigger] now[i]).in_flight() <==> exists|
                            j: int,
                        |
                            k + 1 <= j < expected.len() && expected[j] == i) by {
                            assert(prior[i].children == now[i].children);
                            if i == node {
                                if exists|j: int| k + 1 <= j < expected.len() && expected[j] == i {
                                    let j = choose|j: int|
                                        k + 1 <= j < expected.len() && expected[j] == i;
                                    assert(expected[j] == expected[k as int]);
                                }
                            } else {
                                assert(now[i].net_values == prior[i].net_values);
                                if prior[i].in_flight() {
                                    let j = choose|j: int| k <= j < expected.len() && expected[j] == i;
                                    assert(j != k);
                                }
                            }
                        }
                        assert forall|j: int| k + 1 <= j < expected.len() implies (
                        #[trigger] evals@[j]).policy@.len() == now[expected[j] as int].children->0.length by {
                            assert(prior[expected[j] as int].children == now[expected[j] as int].children);
                        }
                        assert forall|j: int, t: int|
                            0 <= j < k + 1 && 0 <= t < evals@[j].policy@.len() implies now[before[expected[j] as int].children->0.start
                            + t].net_policy == #[trigger] evals@[j].policy@[t] by {
                            let parent = expected[j] as int;
                            let range = before[parent].children->0;
                            let c = range.start + t;
                            assert(prior[parent].children == Some(range));
                            assert(node_linked(prior, parent));
                            assert(range.contains(c));
                            assert(prior[c].parent == Some(parent as usize));
                            if j < k {
                                assert(expected[j] != expected[k as int]);
                                assert(!prior[node as int].children->0.contains(c));
                                assert(prior[c].net_policy == evals@[j].policy@[t]);
                            }
                        }
                        assert forall|j: int| 0 <= j < k + 1 implies (#[trigger] now[expected[j] as int]).net_values
                            == Some(evals@[j].values) by {
                            if j < k {
                                assert(expected[j] != expected[k as int]);
                                assert(prior[expected[j] as int].net_values == Some(evals@[j].values));
                            }
                        }
                    }
                    k += 1;
                }
            },
        }
        self.expected_nodes.clear();
        proof {
            let tree = self.tree;
            assert forall|i: int| 0 <= i < tree@.len() implies !(#[trigger] tree@[i]).in_flight() by {
                if response is None {
                    assert(!expected.contains(i as usize));
                }
            }
            assert forall|i: int| 0 <= i < tree@.len() implies (#[trigger] tree@[i]).virtual_visits
                == 0 by {
                tree.lemma_drained(i);
            }
        }
        Ok(())
    }

    /// Walks down the tree until the root has its visits or a batch is
    /// full. No request may be out.
    ///
    /// Every walk adds a visit to the root, waiting or finished, so the
    /// walks stop when the visits of the root, of both kinds together, reach
    /// the target. The result is [`RunResult::Done`] when no walk has asked
    /// for an evaluation: then all visits of the root are finished ones.
    pub fn gather_batch<N: Numeric<P, V>>(&mut self, numeric: &N, fpu_mode: FpuMode<V>) -> (result:
        RunResult<B>)
        requires
            old(self).wf(),
            old(self).expected().len() == 0,
        ensures
            final(self).wf(),
            Self::batch_gathered(*old(self), *final(self), result),
    {
        let ghost before = self.tree@;
        let ghost root = self.tree.root();
        proof {
            lemma_grown_from_chain(before, before, before);
        }
        let mut requests: Vec<ZeroRequest<B>> = Vec::new();
        let ghost mut walks: int = 0;
        while self.tree.root_total_visits() < self.target_visits && requests.len()
            < self.settings.batch_size
            invariant
                self.tree.wf(),
                self.tree.root() == root,
                self.settings == old(self).settings,
                self.settings.batch_size > 0,
                self.target_visits == old(self).target_visits,
                grown_from(before, self.tree@),
                self.tree@[0].spec_total_visits() == before[0].spec_total_visits() + walks,
                requests@.len() <= walks,
                walks == 0 || self.tree@[0].spec_total_visits() <= self.target_visits,
                pending(self.tree@, self.expected_nodes@),
                requests@.len() == self.expected_nodes@.len(),
                requests@.len() <= self.settings.batch_size,
                forall|k: int|
                    0 <= k < requests@.len() ==> {
                        &&& (#[trigger] requests@[k]).node == self.expected_nodes@[k]
                        &&& requests@[k].board == board_at(root, self.tree@, requests@[k].node as int)
                    },
            decreases self.target_visits - self.tree@[0].spec_total_visits(),
        {
            let ghost prior = self.tree@;
            let ghost prior_expected = self.expected_nodes@;
            let gathered_now = zero_step_gather(&mut self.tree, numeric, fpu_mode);
            proof {
                let now = self.tree@;
                lemma_grown_from_chain(before, prior, now);
                assert(linked(prior));
                assert forall|k: int| 0 <= k < requests@.len() implies (#[trigger] requests@[k]).board
                    == board_at(root, now, requests@[k].node as int) by {
                    lemma_board_at_shape(root, prior, now, requests@[k].node as int);
                }
                walks = walks + 1;
            }
            match gathered_now {
                Some(request) => {
                    proof {
                        let now = self.tree@;
                        let leaf = request.node as int;
                        lemma_on_path_ends(prior, 0, leaf);
                        lemma_board_at_shape(root, prior, now, leaf);
                        assert(!prior[leaf].in_flight());
                        assert(!prior_expected.contains(request.node));
                    }
                    self.expected_nodes.push(request.node);
                    requests.push(request);
                    proof {
                        let now = self.tree@;
                        let leaf = self.expected_nodes@[prior_expected.len() as int] as int;
                        let expected_now = self.expected_nodes@;
                        assert(expected_now == prior_expected.push(leaf as usize));
                        assert forall|i: int| 0 <= i < now.len() implies ((#[trigger] now[i]).in_flight()
                            <==> expected_now.contains(i as usize)) by {
                            if i < prior.len() && i != leaf {
                                assert(now[i].net_values == prior[i].net_values);
                                assert(now[i].children == prior[i].children);
                                if prior_expected.contains(i as usize) {
                                    let j = choose|j: int|
                                        0 <= j < prior_expected.len() && prior_expected[j] == i;
                                    assert(expected_now[j] == i);
                                }
                            } else if i == leaf {
                                assert(expected_now[prior_expected.len() as int] == i);
                                assert(now[i].net_values == prior[i].net_values);
                                assert(node_linked(prior, i));
                            } else {
                                assert(now[i].children is None);
                                if expected_now.contains(i as usize) {
                                    let j = choose|j: int|
                                        0 <= j < expected_now.len() && expected_now[j] == i as usize;
                                    if j < prior_expected.len() {
                                        assert(prior_expected[j] < prior.len());
                                    }
                                }
                            }
                        }
                    }
                },
                None => {
                    proof {
                        let now = self.tree@;
                        let leaf = choose|leaf: int| visited_terminal(root, prior, now, leaf);
                        lemma_on_path_ends(prior, 0, leaf);
                        assert forall|i: int| 0 <= i < now.len() implies ((#[trigger] now[i]).in_flight()
                            <==> prior_expected.contains(i as usize)) by {
                            assert(now[i].net_values == prior[i].net_values);
                        }
                    }
                },
            }
        }

        if requests.len() == 0 {
            proof {
                let tree = self.tree;
                assert forall|i: int| 0 <= i < tree@.len() implies !(#[trigger] tree@[i]).in_flight() by {
                    assert(!self.expected_nodes@.contains(i as usize));
                }
                assert forall|i: int| 0 <= i < tree@.len() implies (#[trigger] tree@[i]).virtual_visits
                    == 0 by {
                    tree.lemma_drained(i);
                }
            }
            RunResult::Done
        } else {
            RunResult::Request(requests)
        }
    }

    /// Takes the evaluations of the last requests into the tree, if there
    /// were any, and then walks down the tree until the root has its visits
    /// or a batch is full: [`ZeroState::apply_response`] followed by
    /// [`ZeroState::gather_batch`].
    pub fn run_until_result<N: Numeric<P, V>>(
        &mut self,
        response: Option<Vec<ZeroEvaluation<P, V>>>,
        numeric: &N,
        fpu_mode: FpuMode<V>,
    ) -> (r: Result<RunResult<B>, RunError>)
        requires
            old(self).wf(),
        ensures
            final(self).wf(),
            final(self).target() == old(self).target(),
            final(self).batch_size() == old(self).batch_size(),
            final(self).spec_tree().root() == old(self).spec_tree().root(),
            grown_from(old(self).spec_tree()@, final(self).spec_tree()@),
            match r {
                Err(e) => {
                    &&& Err::<(), RunError>(e) == response_check(
                        old(self).spec_tree()@,
                        old(self).expected(),
                        handed_back(response),
                    )
                    &&& final(self).spec_tree()@ == old(self).spec_tree()@
                    &&& final(self).expected() == old(self).expected()
                },
                Ok(result) => {
                    let old_total = old(self).spec_tree()@[0].spec_total_visits();
                    let new_total = final(self).spec_tree()@[0].spec_total_visits();
                    &&& response_check(
                        old(self).spec_tree()@,
                        old(self).expected(),
                        handed_back(response),
                    ) is Ok
                    &&& old_total <= new_total
                    &&& new_total <= old_total || new_total <= old(self).target()
                    &&& match result {
                        RunResult::Done => {
                            &&& final(self).drained()
                            &&& new_total >= old(self).target()
                            &&& final(self).spec_tree()@[0].complete_visits == new_total
                        },
                        RunResult::Request(requests) => {
                            &&& 0 < requests@.len() <= old(self).batch_size()
                            &&& old_total + requests@.len() <= new_total
                            &&& requests@.len() < old(self).batch_size() ==> new_total >= old(
                                self,
                            ).target()
                            &&& final(self).expected().len() == requests@.len()
                            &&& forall|k: int|
                                0 <= k < requests@.len() ==> {
                                    &&& (#[trigger] requests@[k]).node == final(self).expected()[k]
                                    &&& requests@[k].board == board_at(
                                        final(self).spec_tree().root(),
                                        final(self).spec_tree()@,
                                        requests@[k].node as int,
                                    )
                                }
                        },
                    }
                },
            },
    {
        let ghost before = self.tree@;
        match self.apply_response(response, numeric) {
            Err(e) => {
                return Err(e);
            },
            Ok(()) => {},
        }
        let ghost middle = self.tree@;
        let result = self.gather_batch(numeric, fpu_mode);
        proof {
            lemma_grown_from_chain(before, middle, self.tree@);
        }
        Ok(result)
    }
}

/// What evaluates positions: the network, or whatever stands in for it.
/// Nothing is promised of what it hands back; the search checks it.
pub trait Network<B, P, V> {
    /// One evaluation per request, in the order of the requests.
    fn evaluate_batch(&mut self, requests: &Vec<ZeroRequest<B>>) -> Vec<ZeroEvaluation<P, V>>;
}

impl ZeroSettings {
    /// Grows `tree` until its root has `target_visits` visits or `stop` says
    /// so, and hands it back. `stop` is asked before each batch is gathered,
    /// when no evaluation is out. Nothing may be waiting for its evaluation
    /// in the tree.
    ///
    /// Where the network hands back evaluations that do not fit the
    /// requests, the search ends with the reason, and the nodes of the last
    /// batch keep waiting. A tree whose root has its visits already asks
    /// nothing of the network, so nothing can go wrong.
    pub fn expand_tree<B: GameBoard, P: Copy, V: Copy, N: Numeric<P, V>, W: Network<B, P, V>, F: Fn(
        &Tree<B, P, V>,
    ) -> bool>(
        self,
        tree: Tree<B, P, V>,
        target_visits: u64,
        network: &mut W,
        numeric: &N,
        fpu_mode: FpuMode<V>,
        stop: F,
    ) -> (r: (Tree<B, P, V>, Result<(), RunError>))
        requires
            tree.wf(),
            self.batch_size > 0,
            forall|i: int| 0 <= i < tree@.len() ==> !(#[trigger] tree@[i]).in_flight(),
            forall|t: &Tree<B, P, V>| t.wf() ==> call_requires(stop, (t,)),
        ensures
            r.0.wf(),
            r.0.root() == tree.root(),
            grown_from(tree@, r.0@),
            tree@[0].spec_total_visits() >= target_visits ==> r.1 is Ok,
            r.1 is Ok ==> forall|i: int| 0 <= i < r.0@.len() ==> (#[trigger] r.0@[i]).virtual_visits == 0,
            r.1 is Ok ==> r.0@[0].complete_visits >= tree@[0].spec_total_visits(),
            r.1 is Ok ==> r.0@[0].complete_visits <= tree@[0].spec_total_visits()
                || r.0@[0].complete_visits <= target_visits,
            r.1 is Ok ==> r.0@[0].complete_visits >= target_visits || call_ensures(
                stop,
                (&r.0,),
                true,
            ),
    {
        let ghost start = tree@;
        let ghost start_total = tree@[0].spec_total_visits();
        let mut state = ZeroState::new(tree, target_visits, self);
        proof {
            lemma_grown_from_chain(start, start, start);
            assert forall|i: int| 0 <= i < start.len() implies (#[trigger] start[i]).virtual_visits
                == 0 by {
                state.tree.lemma_drained(i);
            }
        }
        loop
            invariant
                start == tree@,
                start_total == tree@[0].spec_total_visits(),
                tree.wf(),
                state.wf(),
                state.drained(),
                state.target() == target_visits,
                state.batch_size() == self.batch_size,
                state.spec_tree().root() == tree.root(),
                grown_from(start, state.spec_tree()@),
                start_total <= state.spec_tree()@[0].spec_total_visits(),
                state.spec_tree()@[0].spec_total_visits() <= start_total
                    || state.spec_tree()@[0].spec_total_visits() <= target_visits,
                forall|t: &Tree<B, P, V>| t.wf() ==> call_requires(stop, (t,)),
            decreases target_visits - state.spec_tree()@[0].spec_total_visits(),
        {
            if stop(state.tree()) {
                return (state.into_tree(), Ok(()));
            }
            let ghost prior = state.spec_tree()@;
            let requests = match state.gather_batch(numeric, fpu_mode) {
                RunResult::Done => {
                    proof {
                        lemma_grown_from_chain(start, prior, state.spec_tree()@);
                    }
                    return (state.into_tree(), Ok(()));
                },
                RunResult::Request(requests) => requests,
            };
            let evals = network.evaluate_batch(&requests);
            let ghost middle = state.spec_tree()@;
            match state.apply_response(Some(evals), numeric) {
                Err(e) => {
                    proof {
                        lemma_grown_from_chain(start, prior, middle);
                    }
                    return (state.into_tree(), Err(e));
                },
                Ok(()) => {
                    proof {
                        lemma_grown_from_chain(prior, middle, state.spec_tree()@);
                        lemma_grown_from_chain(start, prior, state.spec_tree()@);
                    }
                },
            }
        }
    }

    /// The tree of a search from `root_board`, see
    /// [`ZeroSettings::expand_tree`]. The position must not be finished.
    pub fn build_tree<B: GameBoard, P: Copy, V: Copy, N: Numeric<P, V>, W: Network<B, P, V>, F: Fn(
        &Tree<B, P, V>,
    ) -> bool>(
        self,
        root_board: B,
        target_visits: u64,
        network: &mut W,
        numeric: &N,
        fpu_mode: FpuMode<V>,
        stop: F,
    ) -> (r: (Tree<B, P, V>, Result<(), RunError>))
        requires
            root_board.valid(),
            root_board.spec_outcome() is None,
            self.batch_size > 0,
            forall|t: &Tree<B, P, V>| t.wf() ==> call_requires(stop, (t,)),
        ensures
            r.0.wf(),
            r.0.root() == root_board,
            target_visits == 0 ==> r.1 is Ok,
            r.1 is Ok ==> forall|i: int| 0 <= i < r.0@.len() ==> (#[trigger] r.0@[i]).virtual_visits == 0,
            r.1 is Ok ==> r.0@[0].complete_visits <= target_visits,
            r.1 is Ok ==> r.0@[0].complete_visits == target_visits || call_ensures(
                stop,
                (&r.0,),
                true,
            ),
    {
        let tree = Tree::new(root_board, numeric);
        self.expand_tree(tree, target_visits, network, numeric, fpu_mode, stop)
    }
}

/// What a finished search says of move `mv`: `tree` is the tree of a search
/// from `board` whose root has `visits` finished visits and in which nothing
/// waits any more, and `mv` leads to the child of the root with the most
/// finished visits, the first of several with the most.
pub open spec fn found_best<B: GameBoard, P: Copy, V: Copy>(
    tree: Tree<B, P, V>,
    board: B,
    visits: u64,
    mv: B::Move,
) -> bool {
    &&& tree.wf()
    &&& tree.root() == board
    &&& tree@[0].complete_visits == visits
    &&& forall|i: int| 0 <= i < tree@.len() ==> (#[trigger] tree@[i]).virtual_visits == 0
    &&& tree@[0].children is Some
    &&& tree.leads_to_most_visited(mv)
}

/// A player that picks its moves by searching: the network, the way the
/// search is cut into batches and the visits that each search gets.
pub struct ZeroBot<W, N, V> {
    network: W,
    numeric: N,
    fpu_mode: FpuMode<V>,
    settings: ZeroSettings,
    visits: u64,
}

impl<W, N, V: Copy> ZeroBot<W, N, V> {
    /// The visits of each search.
    pub closed spec fn spec_visits(&self) -> u64 {
        self.visits
    }

    /// The size of a batch.
    pub closed spec fn spec_batch_size(&self) -> usize {
        self.settings.batch_size
    }

    /// A search needs a visit at least and a batch that holds something.
    pub open spec fn wf(&self) -> bool {
        self.spec_visits() > 0 && self.spec_batch_size() > 0
    }

    /// A bot that searches every position with `visits` visits.
    pub fn new(network: W, numeric: N, fpu_mode: FpuMode<V>, settings: ZeroSettings, visits: u64) -> (r:
        Self)
        requires
            visits > 0,
            settings.batch_size > 0,
        ensures
            r.wf(),
            r.spec_visits() == visits,
            r.spec_batch_size() == settings.batch_size,
    {
        ZeroBot { network, numeric, fpu_mode, settings, visits }
    }

    /// The tree of a search from `board` with the visits of this player.
    /// The game must not be over.
    pub fn build_tree<B: GameBoard, P: Copy>(&mut self, board: B) -> (r: (
        Tree<B, P, V>,
        Result<(), RunError>,
    )) where W: Network<B, P, V>, N: Numeric<P, V>
        requires
            old(self).wf(),
            board.valid(),
            board.spec_outcome() is None,
        ensures
            final(self).wf(),
            final(self).spec_visits() == old(self).spec_visits(),
            final(self).spec_batch_size() == old(self).spec_batch_size(),
            r.0.wf(),
            r.0.root() == board,
            r.1 is Ok ==> r.0@[0].complete_visits == old(self).spec_visits(),
            r.1 is Ok ==> forall|i: int| 0 <= i < r.0@.len() ==> (#[trigger] r.0@[i]).virtual_visits == 0,
    {
        let settings = self.settings;
        let visits = self.visits;
        let fpu_mode = self.fpu_mode;
        let never = |tree: &Tree<B, P, V>| -> (stop: bool)
            ensures
                !stop,
            { false };
        settings.build_tree(board, visits, &mut self.network, &self.numeric, fpu_mode, never)
    }

    /// The move that a search from `board` finds best: the move to the
    /// child of the root with the most finished visits, once the root has
    /// the visits of this player. Nothing where the network has not
    /// answered the requests of the search as they were asked. The game
    /// must not be over.
    pub fn select_move<B: GameBoard, P: Copy>(&mut self, board: B) -> (r: Option<B::Move>) where
        W: Network<B, P, V>,
        N: Numeric<P, V>,

        requires
            old(self).wf(),
            board.valid(),
            board.spec_outcome() is None,
        ensures
            final(self).wf(),
            final(self).spec_visits() == old(self).spec_visits(),
            final(self).spec_batch_size() == old(self).spec_batch_size(),
            r matches Some(mv) ==> exists|tree: Tree<B, P, V>|
                #[trigger] found_best(tree, board, old(self).spec_visits(), mv),
            r matches Some(mv) ==> board.spec_moves().contains(mv),
    {
        let (tree, result): (Tree<B, P, V>, Result<(), RunError>) = self.build_tree(board);
        match result {
            Err(_) => None,
            Ok(()) => {
                proof {
                    assert(node_played(tree.root(), tree@, 0));
                }
                let mv = tree.best_move();
                proof {
                    let children = tree@[0].children->0;
                    let best = choose|best: int|
                        {
                            &&& #[trigger] children.contains(best)
                            &&& tree@[best].last_move == Some(mv)
                        };
                    let k = best - children.start;
                    assert(node_linked(tree@, 0));
                    assert(0 <= k < board.spec_moves().len());
                    assert(tree@[children.start + k].last_move == Some(board.spec_moves()[k]));
                    assert(board.spec_moves().contains(mv));
                    assert(found_best(tree, board, old(self).spec_visits(), mv));
                }
                let picked = Some(mv);
                assert(picked->Some_0 == mv);
                picked
            },
        }
    }
}

} // verus!
