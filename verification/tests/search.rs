use alpha_zero::board::{Board, Coord, Player, Symmetry};
use alpha_zero::zero::game::{GameBoard, Numeric, Outcome, OutcomeWDL};
use alpha_zero::mapping::mapper::PolicyMapper;
use alpha_zero::zero::keep::KeepResult;
use alpha_zero::zero::muzero::{
    top_k_indices, MuApplyError, MuTree, MuZeroRequest, MuZeroResponse,
};
use alpha_zero::zero::step::{
    apply_evaluation, argmax_first, zero_step_apply, zero_step_gather, ApplyError, FpuMode,
    ZeroEvaluation, ZeroRequest,
};
use alpha_zero::selfplay::generator::{add_dirichlet_noise, Plan, SelfplayGame};
use alpha_zero::selfplay::protocol::Settings;
use alpha_zero::zero::symmetry::{
    original_policy, pick_symmetry, position_of, SymmetricBoard, SymmetryError,
};
use rand::rngs::SmallRng;
use rand::SeedableRng;
use alpha_zero::zero::tree::Tree;
use alpha_zero::zero::wrapper::{
    Network, RunError, RunResult, ZeroBot, ZeroSettings, ZeroState,
};

/// A pile of stones; a move takes one or two, and who takes the last one wins.
#[derive(Debug, Clone, PartialEq)]
struct Pile {
    stones: u8,
    next: Player,
}

impl GameBoard for Pile {
    type Move = u8;

    fn outcome(&self) -> Option<Outcome> {
        if self.stones == 0 {
            Some(Outcome::WonBy(self.next.other()))
        } else {
            None
        }
    }

    fn next_player(&self) -> Player {
        self.next
    }

    fn available_moves(&self) -> Vec<u8> {
        if self.stones >= 2 {
            vec![1, 2]
        } else {
            vec![1]
        }
    }

    fn play(&mut self, mv: u8) {
        self.stones -= mv;
        self.next = self.next.other();
    }

    fn duplicate(&self) -> Self {
        self.clone()
    }

    fn same_move(a: u8, b: u8) -> bool {
        a == b
    }
}

struct Floats {
    exploration_weight: f32,
}

impl Numeric<f32, f32> for Floats {
    fn uniform_prior(&self) -> f32 {
        1.0
    }

    fn zero_values(&self) -> f32 {
        0.0
    }

    fn outcome_values(&self, outcome: OutcomeWDL) -> f32 {
        match outcome {
            OutcomeWDL::Win => 1.0,
            OutcomeWDL::Draw => 0.0,
            OutcomeWDL::Loss => -1.0,
        }
    }

    fn flip(&self, values: &f32) -> f32 {
        -*values
    }

    fn parent(&self, values: &f32) -> f32 {
        -*values
    }

    fn add(&self, sum: &f32, values: &f32) -> f32 {
        *sum + *values
    }

    fn mean(&self, sum: &f32, visits: u64) -> f32 {
        *sum / visits as f32
    }

    fn mix(&self, prior: &f32, noise: &f32) -> f32 {
        0.75 * *prior + 0.25 * *noise
    }

    fn prior_key(&self, prior: &f32) -> i64 {
        (*prior * 1_000_000.0) as i64
    }

    fn normalize(&self, priors: Vec<f32>) -> Vec<f32> {
        let sum: f32 = priors.iter().sum();
        priors.into_iter().map(|p| p / sum).collect()
    }

    fn uct(
        &self,
        parent_total_visits: u64,
        fpu: &f32,
        child_complete_visits: u64,
        child_virtual_visits: u64,
        child_sum_values: &f32,
        child_net_policy: &f32,
    ) -> i64 {
        let total = child_complete_visits + child_virtual_visits;
        // both values are as the child sees them; the parent sees the opposite
        let q = if total == 0 { -*fpu } else { -*child_sum_values / total as f32 };
        let u = *child_net_policy * (parent_total_visits as f32).sqrt() / (1 + total) as f32;
        ((q + self.exploration_weight * u) * 1_000_000.0) as i64
    }
}

/// Says nothing of any position: the values of a draw and the same prior for every move.
struct Uniform {
    batches: Vec<usize>,
}

impl<B: GameBoard> Network<B, f32, f32> for Uniform {
    fn evaluate_batch(&mut self, requests: &Vec<ZeroRequest<B>>) -> Vec<ZeroEvaluation<f32, f32>> {
        self.batches.push(requests.len());
        requests.iter().map(|r| uniform_eval(&r.board)).collect()
    }
}

fn uniform_eval<B: GameBoard>(board: &B) -> ZeroEvaluation<f32, f32> {
    let moves = board.available_moves().len();
    ZeroEvaluation { values: 0.0, policy: vec![1.0 / moves as f32; moves] }
}

fn search<B: GameBoard>(tree: &mut Tree<B, f32, f32>, numeric: &Floats, visits: u64) {
    while tree.root_visits() < visits {
        if let Some(request) = zero_step_gather(tree, numeric, FpuMode::Parent) {
            let eval = uniform_eval(&request.board);
            zero_step_apply(tree, request.respond(eval), numeric);
        }
    }
}

#[test]
fn pile_search_finds_the_winning_move() {
    let numeric = Floats { exploration_weight: 2.0 };
    let mut tree: Tree<Pile, f32, f32> = Tree::new(Pile { stones: 4, next: Player::X }, &numeric);
    search(&mut tree, &numeric, 400);
    assert_eq!(tree.root_visits(), 400);
    // with four stones, taking one leaves three, from which the opponent cannot win
    assert_eq!(tree.best_move(), 1);
    let (counts, total) = tree.policy();
    assert_eq!(counts.iter().sum::<u64>(), total);
    assert_eq!(total, 399);
}

#[test]
fn first_walk_expands_the_root() {
    let numeric = Floats { exploration_weight: 2.0 };
    let root = Pile { stones: 5, next: Player::X };
    let mut tree: Tree<Pile, f32, f32> = Tree::new(root.clone(), &numeric);
    assert_eq!(tree.len(), 1);
    assert_eq!(tree.root_board(), &root);

    let request = zero_step_gather(&mut tree, &numeric, FpuMode::Parent).unwrap();
    assert_eq!(request.node, 0);
    assert_eq!(request.board, root);
    assert_eq!(tree.len(), 3);

    let node = tree.node(0);
    assert_eq!(node.parent, None);
    assert_eq!(node.children.map(|c| (c.start, c.length)), Some((1, 2)));
    assert!(node.net_values.is_none());
    assert_eq!((node.complete_visits, node.virtual_visits), (0, 1));
    assert_eq!(tree.root_total_visits(), 1);

    for (k, mv) in [1u8, 2].into_iter().enumerate() {
        let child = tree.node(1 + k);
        assert_eq!(child.parent, Some(0));
        assert_eq!(child.last_move, Some(mv));
        assert!(child.children.is_none());
        assert!(child.net_values.is_none());
        assert_eq!(child.net_policy, 1.0);
        assert_eq!((child.complete_visits, child.virtual_visits), (0, 0));
    }

    let eval = ZeroEvaluation { values: 0.5, policy: vec![0.25, 0.75] };
    zero_step_apply(&mut tree, request.respond(eval), &numeric);
    let node = tree.node(0);
    assert_eq!(node.net_values, Some(0.5));
    assert_eq!((node.complete_visits, node.virtual_visits), (1, 0));
    assert_eq!(node.sum_values, 0.5);
    assert_eq!(tree.node(1).net_policy, 0.25);
    assert_eq!(tree.node(2).net_policy, 0.75);
}

#[test]
fn values_change_sides_on_the_way_up() {
    let numeric = Floats { exploration_weight: 2.0 };
    let mut tree: Tree<Pile, f32, f32> = Tree::new(Pile { stones: 2, next: Player::X }, &numeric);
    let request = zero_step_gather(&mut tree, &numeric, FpuMode::Parent).unwrap();
    let eval = ZeroEvaluation { values: 0.0, policy: vec![0.1, 0.9] };
    zero_step_apply(&mut tree, request.respond(eval), &numeric);

    // the second child has the higher prior; taking both stones ends the game
    assert!(zero_step_gather(&mut tree, &numeric, FpuMode::Parent).is_none());
    let child = tree.node(2);
    assert_eq!(child.last_move, Some(2));
    assert_eq!((child.complete_visits, child.virtual_visits), (1, 0));
    // the player to move at the child has lost
    assert_eq!(child.sum_values, -1.0);
    // which counts as a win at the root
    assert_eq!(tree.node(0).sum_values, 1.0);
    assert_eq!(tree.node(0).complete_visits, 2);
    assert_eq!(tree.len(), 3);
}

#[test]
fn apply_refuses_what_was_not_asked_for() {
    let numeric = Floats { exploration_weight: 2.0 };
    let mut tree: Tree<Pile, f32, f32> = Tree::new(Pile { stones: 5, next: Player::X }, &numeric);

    let policy = vec![0.5, 0.5];
    assert_eq!(apply_evaluation(&mut tree, 7, 0.0, &policy, &numeric), Err(ApplyError::UnknownNode));
    assert_eq!(apply_evaluation(&mut tree, 0, 0.0, &policy, &numeric), Err(ApplyError::NotExpanded));

    let request = zero_step_gather(&mut tree, &numeric, FpuMode::Parent).unwrap();
    let short = vec![1.0];
    assert_eq!(apply_evaluation(&mut tree, 0, 0.0, &short, &numeric), Err(ApplyError::PolicyLength));
    assert!(tree.node(0).net_values.is_none());
    assert_eq!(tree.node(0).virtual_visits, 1);

    let eval = ZeroEvaluation { values: 0.0, policy: policy.clone() };
    zero_step_apply(&mut tree, request.respond(eval), &numeric);
    assert_eq!(
        apply_evaluation(&mut tree, 0, 0.25, &policy, &numeric),
        Err(ApplyError::AlreadyEvaluated)
    );
    assert_eq!(tree.node(0).net_values, Some(0.0));
    assert_eq!(tree.node(0).complete_visits, 1);
}

fn assert_counts_add_up<B: GameBoard>(tree: &Tree<B, f32, f32>) {
    for i in 0..tree.len() {
        let node = tree.node(i);
        match node.children {
            None => assert_eq!(node.virtual_visits, 0),
            Some(children) => {
                let finished: u64 = children.iter().map(|c| tree.node(c).complete_visits).sum();
                let waiting: u64 = children.iter().map(|c| tree.node(c).virtual_visits).sum();
                let evaluated = node.net_values.is_some() as u64;
                assert_eq!(node.complete_visits, finished + evaluated);
                assert_eq!(node.virtual_visits, waiting + 1 - evaluated);
                for c in children.iter() {
                    assert_eq!(tree.node(c).parent, Some(i));
                    assert!(c > i);
                }
            }
        }
    }
}

#[test]
fn visits_of_children_add_up() {
    let numeric = Floats { exploration_weight: 2.0 };
    let mut tree: Tree<Board, f32, f32> = Tree::new(Board::new(), &numeric);
    search(&mut tree, &numeric, 300);
    assert_counts_add_up(&tree);

    let root = tree.node(0);
    let children = root.children.unwrap();
    assert_eq!(children.length, 81);
    let sum: u64 = children.iter().map(|c| tree.node(c).complete_visits).sum();
    assert_eq!(sum, root.complete_visits - 1);
    assert_eq!(root.complete_visits, 300);
}

#[test]
fn counts_add_up_while_evaluations_are_out() {
    let numeric = Floats { exploration_weight: 2.0 };
    let mut tree: Tree<Pile, f32, f32> = Tree::new(Pile { stones: 9, next: Player::X }, &numeric);
    search(&mut tree, &numeric, 20);
    let mut out = vec![];
    for _ in 0..6 {
        if let Some(request) = zero_step_gather(&mut tree, &numeric, FpuMode::Parent) {
            out.push(request);
        }
        assert_counts_add_up(&tree);
    }
    assert!(out.len() >= 2);
    assert_eq!(tree.node(0).virtual_visits, out.len() as u64);
    // the evaluations may come back in any order
    out.reverse();
    for request in out {
        let eval = uniform_eval(&request.board);
        zero_step_apply(&mut tree, request.respond(eval), &numeric);
        assert_counts_add_up(&tree);
    }
    for i in 0..tree.len() {
        assert_eq!(tree.node(i).virtual_visits, 0);
    }
}

#[test]
fn expansion_and_evaluation_happen_once() {
    let numeric = Floats { exploration_weight: 2.0 };
    let mut tree: Tree<Pile, f32, f32> = Tree::new(Pile { stones: 8, next: Player::X }, &numeric);
    let mut seen: Vec<(Option<(usize, u8)>, Option<f32>)> = vec![];
    for step in 0..200 {
        if let Some(request) = zero_step_gather(&mut tree, &numeric, FpuMode::Parent) {
            let mut eval = uniform_eval(&request.board);
            eval.values = (step % 7) as f32 / 10.0;
            zero_step_apply(&mut tree, request.respond(eval), &numeric);
        }
        for i in 0..tree.len() {
            let node = tree.node(i);
            let now = (node.children.map(|c| (c.start, c.length)), node.net_values);
            if i < seen.len() {
                if seen[i].0.is_some() {
                    assert_eq!(seen[i].0, now.0);
                }
                if seen[i].1.is_some() {
                    assert_eq!(seen[i].1, now.1);
                }
                seen[i] = now;
            } else {
                seen.push(now);
            }
        }
    }
    assert!(seen.len() > 10);
}

#[test]
fn fpu_mode_selects() {
    assert_eq!(FpuMode::Fixed(0.25f32).select(-1.0), 0.25);
    assert_eq!(FpuMode::<f32>::Parent.select(-1.0), -1.0);
}

#[test]
fn argmax_takes_the_first_of_the_largest() {
    assert_eq!(argmax_first(&vec![3]), 0);
    assert_eq!(argmax_first(&vec![1, 5, 2, 5, 4]), 1);
    assert_eq!(argmax_first(&vec![-7, -9, -7]), 0);
    assert_eq!(argmax_first(&vec![i64::MIN, i64::MAX]), 1);
}

#[test]
fn best_move_takes_the_first_of_the_most_visited() {
    let numeric = Floats { exploration_weight: 0.0 };
    let mut tree: Tree<Pile, f32, f32> = Tree::new(Pile { stones: 6, next: Player::X }, &numeric);
    let request = zero_step_gather(&mut tree, &numeric, FpuMode::Parent).unwrap();
    let eval = uniform_eval(&request.board);
    zero_step_apply(&mut tree, request.respond(eval), &numeric);
    // no child has been visited: all are equal, the first is taken
    assert_eq!(tree.best_child(), 1);
    assert_eq!(tree.best_move(), 1);
    assert_eq!(tree.child_for(2), 2);
}

fn run_to_the_end(
    state: &mut ZeroState<Pile, f32, f32>,
    numeric: &Floats,
) -> (usize, Vec<usize>) {
    let mut response = None;
    let mut requests_total = 0;
    let mut batches = vec![];
    loop {
        match state.run_until_result(response.take(), numeric, FpuMode::Parent) {
            Ok(RunResult::Done) => return (requests_total, batches),
            Ok(RunResult::Request(requests)) => {
                requests_total += requests.len();
                batches.push(requests.len());
                response = Some(requests.iter().map(|r| uniform_eval(&r.board)).collect());
            }
            Err(e) => panic!("the search refused its own requests: {:?}", e),
        }
    }
}

#[test]
fn search_drains_and_stops_at_the_target() {
    let numeric = Floats { exploration_weight: 2.0 };
    for (target, batch_size) in [(100u64, 7usize), (64, 1), (50, 32), (1, 4)] {
        let tree = Tree::new(Pile { stones: 30, next: Player::X }, &numeric);
        let mut state = ZeroState::new(tree, target, ZeroSettings::new(batch_size));
        let (requests, batches) = run_to_the_end(&mut state, &numeric);

        let tree = state.tree();
        assert_eq!(tree.root_visits(), target);
        assert_eq!(tree.root_total_visits(), target);
        for i in 0..tree.len() {
            assert_eq!(tree.node(i).virtual_visits, 0);
        }
        assert!(requests as u64 <= target);
        assert!(batches.iter().all(|&b| 0 < b && b <= batch_size));
        assert_counts_add_up(tree);
    }
}

#[test]
fn search_refuses_answers_that_do_not_fit() {
    let numeric = Floats { exploration_weight: 2.0 };
    let tree = Tree::new(Pile { stones: 30, next: Player::X }, &numeric);
    let mut state = ZeroState::new(tree, 100, ZeroSettings::new(1));

    let unexpected = Some(vec![ZeroEvaluation { values: 0.0f32, policy: vec![0.5f32, 0.5] }]);
    assert!(matches!(
        state.run_until_result(unexpected, &numeric, FpuMode::Parent),
        Err(RunError::UnexpectedResponse)
    ));

    let requests = match state.run_until_result(None, &numeric, FpuMode::Parent) {
        Ok(RunResult::Request(requests)) => requests,
        _ => panic!("the first run asks for the root"),
    };
    assert_eq!(requests.len(), 1);
    assert_eq!(requests[0].node, 0);

    assert!(matches!(
        state.run_until_result(None, &numeric, FpuMode::Parent),
        Err(RunError::MissingResponse)
    ));
    assert!(matches!(
        state.run_until_result(Some(vec![]), &numeric, FpuMode::Parent),
        Err(RunError::ResponseCount)
    ));
    let short = Some(vec![ZeroEvaluation { values: 0.0f32, policy: vec![1.0f32] }]);
    assert!(matches!(
        state.run_until_result(short, &numeric, FpuMode::Parent),
        Err(RunError::PolicyLength)
    ));
    // nothing was taken in
    assert_eq!(state.tree().root_visits(), 0);
    assert_eq!(state.tree().root_total_visits(), 1);

    let fitting = Some(vec![ZeroEvaluation { values: 0.0f32, policy: vec![0.5f32, 0.5] }]);
    assert!(matches!(
        state.run_until_result(fitting, &numeric, FpuMode::Parent),
        Ok(RunResult::Request(_))
    ));
    assert_eq!(state.tree().root_visits(), 1);
}

#[test]
fn build_tree_runs_in_batches() {
    let numeric = Floats { exploration_weight: 2.0 };
    let mut network = Uniform { batches: vec![] };
    let (tree, result) = ZeroSettings::new(8).build_tree(
        Pile { stones: 40, next: Player::X },
        200,
        &mut network,
        &numeric,
        FpuMode::Fixed(0.0),
        |_tree: &Tree<Pile, f32, f32>| false,
    );
    assert_eq!(result, Ok(()));
    assert_eq!(tree.root_visits(), 200);
    // while the root waits for its evaluation, walks go on into its children
    assert_eq!(network.batches[0], 8);
    assert!(network.batches.iter().all(|&b| 0 < b && b <= 8));
    assert!(network.batches.iter().sum::<usize>() <= 200);
}

#[test]
fn build_tree_stops_when_told() {
    let numeric = Floats { exploration_weight: 2.0 };
    let mut network = Uniform { batches: vec![] };
    let (tree, result) = ZeroSettings::new(4).build_tree(
        Pile { stones: 40, next: Player::X },
        1000,
        &mut network,
        &numeric,
        FpuMode::Parent,
        |tree: &Tree<Pile, f32, f32>| tree.root_visits() >= 30,
    );
    assert_eq!(result, Ok(()));
    assert!(tree.root_visits() >= 30);
    assert!(tree.root_visits() < 30 + 4);
    assert_eq!(tree.root_total_visits(), tree.root_visits());
}

struct Broken;

impl Network<Pile, f32, f32> for Broken {
    fn evaluate_batch(&mut self, _: &Vec<ZeroRequest<Pile>>) -> Vec<ZeroEvaluation<f32, f32>> {
        vec![]
    }
}

#[test]
fn build_tree_reports_a_broken_network() {
    let numeric = Floats { exploration_weight: 2.0 };
    let (tree, result) = ZeroSettings::new(4).build_tree(
        Pile { stones: 40, next: Player::X },
        10,
        &mut Broken,
        &numeric,
        FpuMode::Parent,
        |_tree: &Tree<Pile, f32, f32>| false,
    );
    assert_eq!(result, Err(RunError::ResponseCount));
    assert_eq!(tree.root_visits(), 0);
}

#[test]
fn keep_move_copies_the_subtree() {
    let numeric = Floats { exploration_weight: 2.0 };
    let mut tree: Tree<Pile, f32, f32> = Tree::new(Pile { stones: 7, next: Player::X }, &numeric);
    search(&mut tree, &numeric, 500);
    let mv = tree.best_move();
    let picked = tree.child_for(mv);
    let old_child = tree.node(picked).clone();

    let mut kept = match tree.keep_move(mv) {
        KeepResult::Tree(kept) => kept,
        KeepResult::Done(_) => panic!("the game is not over"),
    };
    assert_eq!(kept.root_board(), &Pile { stones: 7 - mv, next: Player::O });
    assert_eq!(kept.root_visits(), old_child.complete_visits);
    assert_eq!(kept.node(0).sum_values, old_child.sum_values);
    assert_eq!(kept.node(0).net_values, old_child.net_values);
    assert_eq!(kept.node(0).parent, None);
    assert_counts_add_up(&kept);

    // every node of the copy is a node of the tree below the move
    let count = |tree: &Tree<Pile, f32, f32>, from: usize| {
        let mut open = vec![from];
        let mut n = 0;
        while let Some(i) = open.pop() {
            n += 1;
            if let Some(children) = tree.node(i).children {
                open.extend(children.iter());
            }
        }
        n
    };
    assert_eq!(kept.len(), count(&tree, picked));
    assert_eq!(kept.len(), count(&kept, 0));

    // the copy can be searched on
    let before = kept.root_visits();
    search(&mut kept, &numeric, before + 100);
    assert_eq!(kept.root_visits(), before + 100);
    assert_counts_add_up(&kept);
}

#[test]
fn keep_move_tells_the_end_of_the_game() {
    let numeric = Floats { exploration_weight: 2.0 };
    let mut tree: Tree<Pile, f32, f32> = Tree::new(Pile { stones: 2, next: Player::X }, &numeric);
    search(&mut tree, &numeric, 20);
    assert_eq!(tree.best_move(), 2);
    match tree.keep_move(2) {
        KeepResult::Done(outcome) => assert_eq!(outcome, Outcome::WonBy(Player::X)),
        KeepResult::Tree(_) => panic!("taking both stones ends the game"),
    }
    assert!(matches!(tree.keep_move(1), KeepResult::Tree(_)));
}

#[test]
fn outcome_as_the_players_see_it() {
    assert_eq!(Outcome::WonBy(Player::X).pov(Player::X), OutcomeWDL::Win);
    assert_eq!(Outcome::WonBy(Player::X).pov(Player::O), OutcomeWDL::Loss);
    assert_eq!(Outcome::Draw.pov(Player::O), OutcomeWDL::Draw);
    assert_eq!(OutcomeWDL::Win.flip(), OutcomeWDL::Loss);
    assert_eq!(OutcomeWDL::Loss.flip(), OutcomeWDL::Win);
    assert_eq!(OutcomeWDL::Draw.flip(), OutcomeWDL::Draw);
}

#[test]
fn policy_is_read_back_through_a_symmetry() {
    let mut board = Board::new();
    for o in [40u8, 36, 4] {
        board.play(Coord::from_o(o));
    }
    let moves = GameBoard::available_moves(&board);
    assert!(moves.len() > 3);

    for sym in <Board as SymmetricBoard>::all_symmetries() {
        let mapped = board.map(sym);
        let sym_moves = GameBoard::available_moves(&mapped);
        // the policy of the moved board names each of its moves by the tile it goes to
        let sym_policy: Vec<u32> = sym_moves.iter().map(|c| 1000 + c.o() as u32).collect();
        let policy = original_policy(&board, sym, &sym_policy).unwrap();
        let expected: Vec<u32> =
            moves.iter().map(|&c| 1000 + sym.map_coord(c).o() as u32).collect();
        assert_eq!(policy, expected);
    }

    let identity = Symmetry::default();
    let short = vec![0u32; moves.len() - 1];
    assert_eq!(original_policy(&board, identity, &short), Err(SymmetryError::PolicyLength));
}

/// A game whose symmetry loses a move.
#[derive(Clone)]
struct Lopsided;

impl GameBoard for Lopsided {
    type Move = u8;

    fn outcome(&self) -> Option<Outcome> {
        None
    }

    fn next_player(&self) -> Player {
        Player::X
    }

    fn available_moves(&self) -> Vec<u8> {
        vec![1, 2]
    }

    fn play(&mut self, _: u8) {}

    fn duplicate(&self) -> Self {
        Lopsided
    }

    fn same_move(a: u8, b: u8) -> bool {
        a == b
    }
}

impl SymmetricBoard for Lopsided {
    type Symmetry = bool;

    fn all_symmetries() -> Vec<bool> {
        vec![false, true]
    }

    fn map(&self, _: bool) -> Self {
        Lopsided
    }

    fn map_move(&self, sym: bool, mv: u8) -> u8 {
        if sym {
            mv + 1
        } else {
            mv
        }
    }
}

#[test]
fn a_move_without_counterpart_is_reported() {
    let policy = vec![0.25f32, 0.75];
    assert_eq!(original_policy(&Lopsided, false, &policy), Ok(vec![0.25, 0.75]));
    assert_eq!(original_policy(&Lopsided, true, &policy), Err(SymmetryError::MoveNotFound));
    assert_eq!(position_of::<Lopsided>(&vec![4, 5, 4], 4), Some(0));
    assert_eq!(position_of::<Lopsided>(&vec![4, 5, 4], 5), Some(1));
    assert_eq!(position_of::<Lopsided>(&vec![4, 5, 4], 6), None);
}

#[test]
fn symmetries_are_drawn_evenly() {
    let mut rng = SmallRng::seed_from_u64(3);
    let all = Symmetry::all();
    let mut counts = [0u32; 8];
    for _ in 0..8000 {
        let sym = pick_symmetry::<Board, _>(&mut rng, true);
        counts[all.iter().position(|&s| s == sym).unwrap()] += 1;
    }
    assert!(counts.iter().all(|&c| 800 < c && c < 1200), "{:?}", counts);
    for _ in 0..20 {
        assert_eq!(pick_symmetry::<Board, _>(&mut rng, false), Symmetry::default());
    }
    assert!(!pick_symmetry::<Lopsided, _>(&mut rng, false));
}

#[test]
fn noise_is_mixed_into_the_priors() {
    let numeric = Floats { exploration_weight: 2.0 };
    let policy = vec![0.5f32, 0.25, 0.25];
    let noise = vec![1.0f32, 0.0, 0.0];
    assert_eq!(
        add_dirichlet_noise::<f32, f32, _>(&policy, &noise, &numeric),
        Some(vec![0.625, 0.1875, 0.1875])
    );
    assert_eq!(add_dirichlet_noise::<f32, f32, _>(&policy, &vec![1.0], &numeric), None);
    // a single move needs no noise
    assert_eq!(add_dirichlet_noise::<f32, f32, _>(&vec![1.0], &vec![], &numeric), Some(vec![1.0]));
    assert_eq!(add_dirichlet_noise::<f32, f32, _>(&vec![], &vec![0.5], &numeric), Some(vec![]));
}

#[test]
fn the_mean_of_the_root() {
    let numeric = Floats { exploration_weight: 2.0 };
    let mut tree: Tree<Pile, f32, f32> = Tree::new(Pile { stones: 1, next: Player::X }, &numeric);
    search(&mut tree, &numeric, 5);
    // one visit of the root itself, four of the winning move
    assert_eq!(tree.values(&numeric), 0.8);
}

#[test]
fn a_game_of_self_play() {
    let settings = Settings {
        max_game_length: 3,
        use_value: false,
        random_symmetries: false,
        keep_tree: true,
        zero_temp_move_count: 2,
        full_iterations: 50,
        part_iterations: 10,
        cache_size: 0,
    };
    let numeric = Floats { exploration_weight: 2.0 };
    let mut game: SelfplayGame<Pile, f32> = SelfplayGame::new(Pile { stones: 9, next: Player::X });
    let mut plans = vec![];
    loop {
        let full = game.moves_played() % 2 == 0;
        let plan = game.plan(&settings, full);
        plans.push(plan);
        let target = match plan {
            Plan::Finish => break,
            Plan::Search { target_visits, .. } => target_visits,
        };
        let mut tree = Tree::new(game.board().clone(), &numeric);
        search(&mut tree, &numeric, target);
        let values = tree.values(&numeric);
        game.play(tree.best_move(), full, tree.root_visits(), values, 0.0);
    }
    assert_eq!(plans, vec![
        Plan::Search { target_visits: 50, is_full_search: true, with_temperature: true },
        Plan::Search { target_visits: 10, is_full_search: false, with_temperature: true },
        Plan::Search { target_visits: 50, is_full_search: true, with_temperature: false },
        Plan::Finish,
    ]);
    let simulation = game.finish();
    assert_eq!(simulation.positions.len(), 3);
    assert_eq!(simulation.full_search_count(), 2);
    assert_eq!(simulation.positions[0].board, Pile { stones: 9, next: Player::X });
    assert_eq!(simulation.positions[1].zero_visits, 10);
    let taken: u8 = simulation.positions.iter().map(|p| p.played_mv).sum();
    assert_eq!(simulation.final_board.stones, 9 - taken);

    // a game whose board is finished is handed in whatever its length
    let done: SelfplayGame<Pile, f32> = SelfplayGame::new(Pile { stones: 0, next: Player::X });
    let unlimited = Settings { max_game_length: -1, ..settings };
    assert_eq!(done.plan(&unlimited, true), Plan::Finish);
}

#[test]
fn the_largest_keys_first() {
    assert_eq!(top_k_indices(&vec![5, 9, 1, 9, 7], 3), vec![1, 3, 4]);
    assert_eq!(top_k_indices(&vec![5, 9, 1, 9, 7], 5), vec![1, 3, 4, 0, 2]);
    assert_eq!(top_k_indices(&vec![5, 9, 1, 9, 7], 9), vec![1, 3, 4, 0, 2]);
    assert_eq!(top_k_indices(&vec![5, 9, 1], 0), Vec::<usize>::new());
    assert_eq!(top_k_indices(&vec![], 2), Vec::<usize>::new());
    assert_eq!(top_k_indices(&vec![0, 0, 0], 2), vec![0, 1]);
}

/// The moves of the pile in a policy of three entries: none for taking nothing.
struct PileMapper;

impl PolicyMapper<Pile, u8> for PileMapper {
    fn policy_shape(&self) -> [usize; 3] {
        [1, 1, 3]
    }

    fn policy_len(&self) -> usize {
        3
    }

    fn move_to_index(&self, _: &Pile, mv: u8) -> Option<usize> {
        if mv < 3 {
            Some(mv as usize)
        } else {
            None
        }
    }

    fn index_to_move(&self, _: &Pile, index: usize) -> Option<u8> {
        if 0 < index && index < 3 {
            Some(index as u8)
        } else {
            None
        }
    }
}

#[test]
fn hidden_states_are_searched() {
    let numeric = Floats { exploration_weight: 2.0 };
    let root = Pile { stones: 5, next: Player::X };
    let mut tree: MuTree<Pile, u32, f32, f32> = MuTree::new(root.clone(), &numeric);
    assert_eq!(tree.len(), 1);

    // first the board at the root is asked for
    match tree.muzero_step_gather(&numeric, FpuMode::Parent) {
        MuZeroRequest::Root { node, board } => {
            assert_eq!(node, 0);
            assert_eq!(board, root);
        }
        MuZeroRequest::Expand { .. } => panic!("the root has no state yet"),
    }
    let response = MuZeroResponse { node: 0, state: 100, values: 0.5, policy: vec![0.5, 0.125, 0.375] };
    assert_eq!(tree.muzero_step_apply(2, response, &PileMapper, &numeric), Ok(()));
    // the children of the root are the moves of the board, with their priors made to add up to one
    assert_eq!(tree.len(), 3);
    assert_eq!(tree.node(0).children.map(|c| (c.start, c.length)), Some((1, 2)));
    assert_eq!(tree.node(0).net_values, Some(0.5));
    assert_eq!((tree.node(1).last_move, tree.node(1).net_policy), (Some(1), 0.25));
    assert_eq!((tree.node(2).last_move, tree.node(2).net_policy), (Some(2), 0.75));
    assert_eq!(tree.root_visits(), 1);
    assert_eq!(tree.node(0).sum_values, 0.5);

    // then the move with the higher prior, from the state of the root
    match tree.muzero_step_gather(&numeric, FpuMode::Parent) {
        MuZeroRequest::Expand { node, state, move_index } => {
            assert_eq!((node, state, move_index), (2, 100, 2));
        }
        MuZeroRequest::Root { .. } => panic!("the root has its state"),
    }
    let response = MuZeroResponse { node: 2, state: 102, values: 0.25, policy: vec![0.25, 0.5, 0.25] };
    assert_eq!(tree.muzero_step_apply(2, response, &PileMapper, &numeric), Ok(()));
    // below the root the children are the moves with the highest priors, whatever the board allows
    assert_eq!(tree.len(), 5);
    assert_eq!((tree.node(3).last_move, tree.node(3).parent), (Some(1), Some(2)));
    assert_eq!((tree.node(4).last_move, tree.node(4).parent), (Some(0), Some(2)));
    assert_eq!(tree.node(3).net_policy, 0.5 / 0.75);
    assert_eq!(tree.node(2).complete_visits, 1);
    assert_eq!(tree.node(2).sum_values, 0.25);
    assert_eq!(tree.root_visits(), 2);
    assert_eq!(tree.node(0).sum_values, 0.25);

    for step in 0..50u32 {
        let request = tree.muzero_step_gather(&numeric, FpuMode::Parent);
        let node = match request {
            MuZeroRequest::Expand { node, state, move_index } => {
                let parent = tree.node(node).parent.unwrap();
                assert_eq!(state, 100 + parent as u32);
                assert_eq!(tree.node(node).last_move, Some(move_index));
                node
            }
            MuZeroRequest::Root { .. } => panic!("the root has its state"),
        };
        let response = MuZeroResponse {
            node,
            state: 100 + node as u32,
            values: (step % 3) as f32 - 1.0,
            policy: vec![0.25, 0.5, 0.25],
        };
        assert_eq!(tree.muzero_step_apply(3, response, &PileMapper, &numeric), Ok(()));
    }
    assert_eq!(tree.root_visits(), 52);
    for i in 0..tree.len() {
        let node = tree.node(i);
        assert_eq!(node.virtual_visits, 0);
        assert_eq!(node.children.is_some(), node.net_values.is_some());
        match node.children {
            None => assert_eq!(node.complete_visits, 0),
            Some(children) => {
                let sum: u64 = children.iter().map(|c| tree.node(c).complete_visits).sum();
                assert_eq!(node.complete_visits, sum + 1);
            }
        }
    }
}

#[test]
fn answers_that_do_not_fit_the_hidden_states() {
    let numeric = Floats { exploration_weight: 2.0 };
    let mut tree: MuTree<Pile, u32, f32, f32> = MuTree::new(Pile { stones: 5, next: Player::X }, &numeric);
    let answer = |node: usize, policy: Vec<f32>| MuZeroResponse { node, state: 7u32, values: 0.0f32, policy };

    assert_eq!(
        tree.muzero_step_apply(2, answer(3, vec![0.0; 3]), &PileMapper, &numeric),
        Err(MuApplyError::UnknownNode)
    );
    assert_eq!(
        tree.muzero_step_apply(2, answer(0, vec![0.0; 4]), &PileMapper, &numeric),
        Err(MuApplyError::PolicyLength)
    );
    assert_eq!(tree.len(), 1);
    assert_eq!(tree.muzero_step_apply(2, answer(0, vec![0.2, 0.3, 0.5]), &PileMapper, &numeric), Ok(()));
    assert_eq!(
        tree.muzero_step_apply(2, answer(0, vec![0.2, 0.3, 0.5]), &PileMapper, &numeric),
        Err(MuApplyError::AlreadyEvaluated)
    );
    // a node below the root that is to keep none of its moves
    assert_eq!(
        tree.muzero_step_apply(0, answer(1, vec![0.2, 0.3, 0.5]), &PileMapper, &numeric),
        Err(MuApplyError::ChildCount)
    );
    assert_eq!(tree.len(), 3);
    assert_eq!(tree.root_visits(), 1);

    // a board whose moves the mapper does not know
    struct Blind;
    impl PolicyMapper<Pile, u8> for Blind {
        fn policy_shape(&self) -> [usize; 3] {
            [1, 1, 3]
        }
        fn policy_len(&self) -> usize {
            3
        }
        fn move_to_index(&self, _: &Pile, _: u8) -> Option<usize> {
            None
        }
        fn index_to_move(&self, _: &Pile, _: usize) -> Option<u8> {
            None
        }
    }
    let mut tree: MuTree<Pile, u32, f32, f32> = MuTree::new(Pile { stones: 5, next: Player::X }, &numeric);
    assert_eq!(
        tree.muzero_step_apply(2, answer(0, vec![0.0; 3]), &Blind, &numeric),
        Err(MuApplyError::UnmappedMove)
    );
}

#[test]
fn a_bot_picks_the_winning_move() {
    let numeric = Floats { exploration_weight: 2.0 };
    let network = Uniform { batches: vec![] };
    let mut bot = ZeroBot::new(network, numeric, FpuMode::Parent, ZeroSettings::new(2), 300);
    assert_eq!(bot.select_move::<Pile, f32>(Pile { stones: 4, next: Player::X }), Some(1));
    assert_eq!(bot.select_move::<Pile, f32>(Pile { stones: 2, next: Player::X }), Some(2));
    let (tree, result) = bot.build_tree::<Pile, f32>(Pile { stones: 5, next: Player::O });
    assert_eq!(result, Ok(()));
    assert_eq!(tree.root_visits(), 300);

    let numeric = Floats { exploration_weight: 2.0 };
    let mut broken = ZeroBot::new(Broken, numeric, FpuMode::Parent, ZeroSettings::new(2), 300);
    assert_eq!(broken.select_move::<Pile, f32>(Pile { stones: 4, next: Player::X }), None);
}

#[test]
fn a_kept_tree_decides_as_a_fresh_one() {
    let numeric = Floats { exploration_weight: 2.0 };
    let start = Pile { stones: 9, next: Player::X };
    let mut tree: Tree<Pile, f32, f32> = Tree::new(start.clone(), &numeric);
    search(&mut tree, &numeric, 500);
    let mv = tree.best_move();

    let mut next = start.clone();
    next.play(mv);
    let mut fresh: Tree<Pile, f32, f32> = Tree::new(next, &numeric);
    search(&mut fresh, &numeric, 500);

    let mut kept = match tree.keep_move(mv) {
        KeepResult::Tree(kept) => kept,
        KeepResult::Done(_) => panic!("the game is not over"),
    };
    let reused = kept.root_visits();
    assert!(0 < reused && reused < 500);
    search(&mut kept, &numeric, 500);
    assert_eq!(kept.root_visits(), 500);

    assert_eq!(kept.best_move(), fresh.best_move());
    let mean = |tree: &Tree<Pile, f32, f32>| tree.node(0).sum_values / tree.root_visits() as f32;
    assert!(
        (mean(&kept) - mean(&fresh)).abs() <= 0.02,
        "the means are {} and {}",
        mean(&kept),
        mean(&fresh)
    );
}
