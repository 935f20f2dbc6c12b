use monte_carlo_tree_search::clock::is_expired;
use monte_carlo_tree_search::descent::Descent;
use monte_carlo_tree_search::hashing::hash;
use monte_carlo_tree_search::selection::State;
use monte_carlo_tree_search::GameTreeNode;
use monte_carlo_tree_search::LearningSearchTreeStrategy;
use monte_carlo_tree_search::NodeState;
use monte_carlo_tree_search::Player;
use monte_carlo_tree_search::RandomStrategy;
use monte_carlo_tree_search::SearchConfig;
use monte_carlo_tree_search::SearchTree;
use monte_carlo_tree_search::Strategy;
use monte_carlo_tree_search::TicTacToeState;
use std::cell::Cell;
use std::collections::hash_map::DefaultHasher;
use std::hash::Hasher;
use std::time::Duration;
use std::time::Instant;

/// A key that orders scores as numbers are ordered, with every
/// not-a-number above all of them.
fn order_key(score: f64) -> u64 {
    if score.is_nan() {
        return u64::MAX;
    }
    let score = if score == 0.0 { 0.0 } else { score };
    let bits = score.to_bits();
    if bits >> 63 == 1 {
        !bits
    } else {
        bits | (1 << 63)
    }
}

fn uct(visits: u32, total_reward: i64, parent_visits: u32, exploration_factor: f64) -> f64 {
    let parent_number_of_visits = parent_visits as f64;
    let number_of_visits = visits as f64;
    let total_reward = total_reward as f64;
    let exploitation_component = total_reward / number_of_visits;
    let exploration_component =
        exploration_factor * (number_of_visits.log10() / parent_number_of_visits).sqrt();
    exploitation_component + exploration_component
}

fn uct_score(exploration_factor: f64) -> impl Fn(u32, i64, u32) -> u64 {
    move |visits, total_reward, parent_visits| {
        order_key(uct(visits, total_reward, parent_visits, exploration_factor))
    }
}

/// Prefers the child with the fewest visits.
fn least_visited(visits: u32, _total_reward: i64, _parent_visits: u32) -> u64 {
    u64::MAX - visits as u64
}

fn generous(max_iterations: u64) -> SearchConfig {
    SearchConfig { max_duration: Duration::from_secs(60), max_iterations }
}

/// A game that is over before it starts.
#[derive(Debug, Clone)]
struct Finished {
    reward: i64,
    by_self: bool,
}

impl GameTreeNode for Finished {
    fn content(&self) -> Vec<u8> {
        vec![0xF1, self.by_self as u8]
    }

    fn is_self_turn(&self) -> bool {
        self.by_self
    }

    fn calculate_state(&self) -> NodeState<Finished> {
        NodeState::Reward(self.reward)
    }
}

/// A tree given by its shape: a node without branches ends the game.
#[derive(Debug, Clone)]
struct Shaped {
    label: u8,
    by_self: bool,
    reward: i64,
    branches: Vec<Shaped>,
}

impl GameTreeNode for Shaped {
    fn content(&self) -> Vec<u8> {
        vec![0x5A, self.label]
    }

    fn is_self_turn(&self) -> bool {
        self.by_self
    }

    fn calculate_state(&self) -> NodeState<Shaped> {
        if self.branches.is_empty() {
            NodeState::Reward(self.reward)
        } else {
            NodeState::HasChildren(self.branches.clone())
        }
    }
}

fn leaf(label: u8, by_self: bool, reward: i64) -> Shaped {
    Shaped { label, by_self, reward, branches: Vec::new() }
}

fn count_inner_nodes<N: GameTreeNode>(node: &N) -> u64 {
    match node.calculate_state() {
        NodeState::Reward(_) => 0,
        NodeState::HasChildren(children) => {
            1 + children.iter().map(count_inner_nodes).sum::<u64>()
        }
    }
}

fn slot(c: char) -> Option<Player> {
    match c {
        'O' => Some(Player::O),
        'X' => Some(Player::X),
        _ => None,
    }
}

fn position(rows: &str, current_player: Player) -> TicTacToeState {
    let mut board = [None; 9];
    for (i, c) in rows.chars().enumerate() {
        board[i] = slot(c);
    }
    TicTacToeState { board, current_player }
}

#[test]
fn order_keys_order_as_the_scores_do() {
    let scores = [f64::NEG_INFINITY, -2.5, -0.0, 1e-300, 0.5, 3.0, f64::INFINITY];
    for pair in scores.windows(2) {
        assert!(order_key(pair[0]) < order_key(pair[1]));
    }
    assert_eq!(order_key(-0.0), order_key(0.0));
    assert!(order_key(f64::NAN) > order_key(f64::INFINITY));
}

#[test]
fn uct_has_the_asymmetric_form() {
    assert_eq!(uct(10, 5, 100, 0.0), 0.5);
    assert_eq!(uct(10, 5, 100, 2.0), 0.5 + 2.0 * (1.0f64 / 100.0).sqrt());
    assert_eq!(uct(100, -50, 4, 1.0), -0.5 + (2.0f64 / 4.0).sqrt());
    assert_eq!(uct(1, 3, 7, 9.0), 3.0);
}

#[test]
fn hash_is_the_standard_hash_of_the_content() {
    let node = position("XO  X  O ", Player::X);
    let mut hasher = DefaultHasher::new();
    hasher.write(&[1, 2, 0, 0, 1, 0, 0, 2, 0, 1]);
    assert_eq!(hash(&node), hasher.finish());
}

#[test]
fn the_default_budget_is_a_second_and_a_thousand_passes() {
    let config = SearchConfig::default();
    assert_eq!(config.max_duration, Duration::from_secs(1));
    assert_eq!(config.max_iterations, 1_000);
}

#[test]
fn the_budget_is_spent_once_the_count_exceeds_the_cap() {
    let config = generous(3);
    assert!(!config.is_spent(0));
    assert!(!config.is_spent(3));
    assert!(config.is_spent(4));
    assert!(!generous(u64::MAX).is_spent(u64::MAX));
    assert!(generous(0).is_spent(1));
}

#[test]
fn hash_depends_on_the_content_alone() {
    let a = leaf(1, true, 5);
    let b = leaf(1, false, -5);
    let c = leaf(2, true, 5);
    assert_eq!(hash(&a), hash(&b));
    assert_ne!(hash(&a), hash(&c));
    assert_eq!(hash(&TicTacToeState::new()), hash(&TicTacToeState::new()));
    assert_ne!(
        hash(&position("X        ", Player::O)),
        hash(&position(" X       ", Player::O))
    );
    assert_ne!(
        hash(&position("         ", Player::X)),
        hash(&position("         ", Player::O))
    );
}

#[test]
fn a_finished_root_is_recorded_once_in_each_pass() {
    let root = Finished { reward: 5, by_self: true };
    let mut tree = SearchTree::new();
    assert_eq!(tree.get_number_of_visits(&root), 0);
    let completed = tree.search(root.clone(), generous(9), &uct_score(0.5));
    assert_eq!(completed, 10);
    assert_eq!(tree.get_number_of_visits(&root), 10);
    let metadata = tree.metadata(hash(&root)).expect("recorded");
    assert_eq!(metadata.total_reward(), 50);
    assert!(metadata.is_visited());
    assert!(!metadata.is_fully_expanded());
}

#[test]
fn a_finished_root_of_the_other_side_gets_the_opposite_reward() {
    let root = Finished { reward: 5, by_self: false };
    let mut tree = SearchTree::new();
    let completed = tree.search(root.clone(), generous(3), &uct_score(0.5));
    assert_eq!(completed, 4);
    assert_eq!(tree.get_number_of_visits(&root), 4);
    assert_eq!(tree.metadata(hash(&root)).expect("recorded").total_reward(), -20);
}

#[test]
fn a_cap_of_zero_allows_one_pass() {
    let root = Finished { reward: 1, by_self: true };
    let mut tree = SearchTree::new();
    let completed = tree.search(root.clone(), generous(0), &uct_score(0.5));
    assert_eq!(completed, 1);
    assert_eq!(tree.get_number_of_visits(&root), 1);
}

#[test]
fn searches_add_up_in_one_tree() {
    let root = Finished { reward: 2, by_self: true };
    let mut tree = SearchTree::new();
    let first = tree.search(root.clone(), generous(4), &uct_score(0.5));
    let second = tree.search(root.clone(), generous(6), &uct_score(0.5));
    assert_eq!(first + second, 12);
    assert_eq!(tree.get_number_of_visits(&root), 12);
    assert_eq!(tree.metadata(hash(&root)).expect("recorded").total_reward(), 24);
}

#[test]
fn no_time_means_next_to_no_passes() {
    let root = TicTacToeState::new();
    let mut tree = SearchTree::new();
    let config = SearchConfig { max_duration: Duration::from_secs(0), max_iterations: 1_000_000 };
    let started = Instant::now();
    let completed = tree.search(root.clone(), config, &uct_score(0.5));
    assert!(started.elapsed() < Duration::from_secs(5));
    assert!(completed <= 50);
    assert_eq!(tree.get_number_of_visits(&root) as u64, completed);
}

#[test]
fn the_reward_changes_sign_where_the_other_side_moved() {
    let root = Shaped {
        label: 0,
        by_self: true,
        reward: 0,
        branches: vec![leaf(1, false, 7)],
    };
    let mut tree = SearchTree::new();
    let completed = tree.search(root.clone(), generous(0), &uct_score(0.5));
    assert_eq!(completed, 1);
    let at_root = tree.metadata(hash(&root)).expect("recorded");
    assert_eq!(at_root.number_of_visits(), 1);
    assert_eq!(at_root.total_reward(), 7);
    let at_leaf = tree.metadata(hash(&root.branches[0])).expect("recorded");
    assert_eq!(at_leaf.number_of_visits(), 1);
    assert_eq!(at_leaf.total_reward(), -7);

    let mirrored = Shaped {
        label: 10,
        by_self: false,
        reward: 0,
        branches: vec![leaf(11, true, 7)],
    };
    let mut other = SearchTree::new();
    other.search(mirrored.clone(), generous(0), &uct_score(0.5));
    assert_eq!(other.metadata(hash(&mirrored)).expect("recorded").total_reward(), -7);
    assert_eq!(
        other.metadata(hash(&mirrored.branches[0])).expect("recorded").total_reward(),
        7
    );
}

#[test]
fn expansion_visits_each_child_before_any_twice() {
    let root = Shaped {
        label: 0,
        by_self: true,
        reward: 0,
        branches: vec![leaf(1, true, 1), leaf(2, true, 2), leaf(3, true, 3)],
    };
    let mut tree = SearchTree::new();
    let completed = tree.search(root.clone(), generous(2), &uct_score(0.5));
    assert_eq!(completed, 3);
    for child in &root.branches {
        assert_eq!(tree.get_number_of_visits(child), 1);
    }
    assert_eq!(tree.get_number_of_visits(&root), 3);
    assert_eq!(tree.metadata(hash(&root)).expect("recorded").total_reward(), 6);
    assert_eq!(tree.number_of_fully_expanded_nodes(root.clone()), 0);

    let completed = tree.search(root.clone(), generous(0), &uct_score(0.5));
    assert_eq!(completed, 1);
    assert_eq!(tree.number_of_fully_expanded_nodes(root.clone()), 1);
    assert_eq!(tree.get_number_of_visits(&root), 4);
}

#[test]
fn simulated_nodes_are_not_recorded() {
    let deep = Shaped {
        label: 0,
        by_self: true,
        reward: 0,
        branches: vec![Shaped {
            label: 1,
            by_self: true,
            reward: 0,
            branches: vec![Shaped {
                label: 2,
                by_self: true,
                reward: 0,
                branches: vec![leaf(3, true, 4)],
            }],
        }],
    };
    let mut tree = SearchTree::new();
    let completed = tree.search(deep.clone(), generous(0), &uct_score(0.5));
    assert_eq!(completed, 1);
    let first = &deep.branches[0];
    let second = &first.branches[0];
    let last = &second.branches[0];
    assert_eq!(tree.get_number_of_visits(&deep), 1);
    assert_eq!(tree.get_number_of_visits(first), 1);
    assert_eq!(tree.get_number_of_visits(second), 0);
    assert_eq!(tree.get_number_of_visits(last), 0);
    assert!(tree.metadata(hash(second)).is_some());
    assert!(tree.metadata(hash(last)).is_some());
}

#[test]
fn selection_follows_the_highest_score() {
    let root = Shaped {
        label: 0,
        by_self: true,
        reward: 0,
        branches: vec![leaf(1, true, 1), leaf(2, true, 9), leaf(3, true, 9)],
    };
    let mut tree = SearchTree::new();
    let by_total_reward = |_visits: u32, total_reward: i64, _parent: u32| total_reward as u64;
    let completed = tree.search(root.clone(), generous(12), &by_total_reward);
    assert_eq!(completed, 13);
    assert_eq!(tree.get_number_of_visits(&root.branches[0]), 1);
    assert_eq!(tree.get_number_of_visits(&root.branches[1]), 11);
    assert_eq!(tree.get_number_of_visits(&root.branches[2]), 1);
}

#[test]
fn the_most_visited_child_is_the_first_of_equals() {
    let children = vec![leaf(1, true, 0), leaf(2, true, 0), leaf(3, true, 0), leaf(4, true, 0)];
    let mut tree = SearchTree::new();
    tree.record_result(hash(&children[1]), 1);
    tree.record_result(hash(&children[1]), 1);
    tree.record_result(hash(&children[2]), 1);
    tree.record_result(hash(&children[2]), 1);
    tree.record_result(hash(&children[3]), 1);
    let (visits, chosen) = tree.select_most_visited_child(children.clone());
    assert_eq!(visits, 2);
    assert_eq!(chosen.label, 2);

    let (visits, chosen) = SearchTree::new().select_most_visited_child(children);
    assert_eq!(visits, 0);
    assert_eq!(chosen.label, 1);
}

#[test]
fn the_choice_depends_on_the_statistics_alone() {
    let children = vec![leaf(1, true, 0), leaf(2, true, 0), leaf(3, true, 0)];
    let mut tree = SearchTree::new();
    tree.record_result(hash(&children[2]), -4);
    tree.record_result(hash(&children[0]), 4);
    tree.record_result(hash(&children[2]), -4);
    for _ in 0..10 {
        let (visits, chosen) = tree.select_most_visited_child(children.clone());
        assert_eq!(visits, 2);
        assert_eq!(chosen.label, 3);
    }
}

#[test]
fn unknown_nodes_have_no_visits() {
    let tree = SearchTree::new();
    assert_eq!(tree.get_number_of_visits(&TicTacToeState::new()), 0);
    assert_eq!(tree.number_of_fully_expanded_nodes(TicTacToeState::new()), 0);
}

#[test]
fn fully_expanded_nodes_are_counted_along_fully_expanded_paths() {
    let root = Shaped {
        label: 0,
        by_self: true,
        reward: 0,
        branches: vec![
            Shaped { label: 1, by_self: false, reward: 0, branches: vec![leaf(3, true, 1)] },
            Shaped { label: 2, by_self: false, reward: 0, branches: vec![leaf(4, true, 1)] },
            leaf(5, false, 0),
        ],
    };
    let mut tree = SearchTree::new();
    tree.set_fully_expanded(hash(&root.branches[0]));
    assert_eq!(tree.number_of_fully_expanded_nodes(root.clone()), 0);
    tree.set_fully_expanded(hash(&root));
    assert_eq!(tree.number_of_fully_expanded_nodes(root.clone()), 2);
    tree.set_fully_expanded(hash(&root.branches[1].branches[0]));
    assert_eq!(tree.number_of_fully_expanded_nodes(root.clone()), 2);
    tree.set_fully_expanded(hash(&root.branches[1]));
    assert_eq!(tree.number_of_fully_expanded_nodes(root.clone()), 4);
    tree.set_fully_expanded(hash(&root.branches[2]));
    assert_eq!(tree.number_of_fully_expanded_nodes(root.clone()), 5);
}

#[test]
fn a_small_game_ends_up_fully_expanded() {
    let root = position("XOXOXO   ", Player::O);
    let inner = count_inner_nodes(&root);
    assert!(inner >= 2);
    let mut tree = SearchTree::new();
    tree.search(root.clone(), generous(200), &least_visited);
    assert_eq!(tree.number_of_fully_expanded_nodes(root.clone()), inner);
    tree.search(root.clone(), generous(200), &least_visited);
    assert_eq!(tree.number_of_fully_expanded_nodes(root.clone()), inner);
}

#[test]
fn the_number_of_fully_expanded_nodes_never_falls() {
    let root = position("XO  X  O ", Player::X);
    let mut tree = SearchTree::new();
    let mut last = 0;
    for _ in 0..10 {
        tree.search(root.clone(), generous(100), &uct_score(2.0f64.sqrt()));
        let now = tree.number_of_fully_expanded_nodes(root.clone());
        assert!(now >= last);
        assert!(now <= count_inner_nodes(&root));
        last = now;
    }
    assert!(last >= 1);
}

#[test]
fn every_completed_pass_visits_the_root() {
    let root = TicTacToeState::new();
    let mut tree = SearchTree::new();
    let completed = tree.search(root.clone(), generous(300), &uct_score(2.0f64.sqrt()));
    assert_eq!(completed, 301);
    assert_eq!(tree.get_number_of_visits(&root), 301);
    let children = match root.calculate_state() {
        NodeState::HasChildren(children) => children,
        NodeState::Reward(_) => panic!("the empty board has moves"),
    };
    let below: u32 = children.iter().map(|child| tree.get_number_of_visits(child)).sum();
    assert_eq!(below, 301);
}

#[test]
fn statistics_only_grow() {
    let root = position("X O      ", Player::X);
    let children = match root.calculate_state() {
        NodeState::HasChildren(children) => children,
        NodeState::Reward(_) => panic!("the game is not over"),
    };
    let mut tree = SearchTree::new();
    let mut visits = vec![0; children.len()];
    let mut visited = vec![false; children.len()];
    let mut expanded = vec![false; children.len()];
    for _ in 0..20 {
        tree.search(root.clone(), generous(20), &uct_score(0.5));
        for (i, child) in children.iter().enumerate() {
            let metadata = tree.metadata(hash(child)).expect("loaded with its parent");
            assert!(metadata.number_of_visits() >= visits[i]);
            assert!(metadata.is_visited() || !visited[i]);
            assert!(metadata.is_fully_expanded() || !expanded[i]);
            visits[i] = metadata.number_of_visits();
            visited[i] = metadata.is_visited();
            expanded[i] = metadata.is_fully_expanded();
        }
    }
    assert!(visited.iter().all(|seen| *seen));
}

#[test]
fn the_clock_holds_the_time_passed_against_the_limit() {
    let start = Instant::now();
    assert!(!is_expired(&start, &Duration::from_secs(3_600)));
    while start.elapsed() == Duration::from_secs(0) {}
    assert!(is_expired(&start, &Duration::from_secs(0)));
    assert!(!is_expired(&start, &Duration::from_secs(3_600)));
}

#[test]
fn a_search_without_a_deadline_runs_to_its_cap() {
    let root = TicTacToeState::new();
    let mut tree = SearchTree::new();
    let completed = tree.search_until(root.clone(), generous(24), &|| false, &least_visited);
    assert_eq!(completed, 25);
    assert_eq!(tree.get_number_of_visits(&root), 25);
}

#[test]
fn a_search_out_of_time_completes_no_pass() {
    let root = Shaped {
        label: 0,
        by_self: true,
        reward: 0,
        branches: vec![leaf(1, true, 1), leaf(2, true, 2)],
    };
    let mut tree = SearchTree::new();
    tree.record_result(hash(&root.branches[0]), 6);
    let completed = tree.search_until(root.clone(), generous(1_000), &|| true, &least_visited);
    assert_eq!(completed, 0);
    let at_root = tree.metadata(hash(&root)).expect("made known");
    assert_eq!(at_root.number_of_visits(), 0);
    assert!(!at_root.is_visited());
    assert!(!at_root.is_fully_expanded());
    assert_eq!(tree.get_number_of_visits(&root.branches[0]), 1);
    assert!(tree.metadata(hash(&root.branches[1])).is_none());
}

#[test]
fn a_pass_that_runs_out_of_time_records_nothing() {
    let deep = Shaped {
        label: 0,
        by_self: true,
        reward: 0,
        branches: vec![Shaped {
            label: 1,
            by_self: true,
            reward: 0,
            branches: vec![Shaped {
                label: 2,
                by_self: true,
                reward: 0,
                branches: vec![leaf(3, true, 4)],
            }],
        }],
    };
    let readings = Cell::new(0);
    let expired = || {
        readings.set(readings.get() + 1);
        readings.get() > 2
    };
    let mut rng = rand::rng();
    let mut tree = SearchTree::new();
    let reward = tree.run_iteration_until(&deep, &expired, &least_visited, &mut rng);
    assert_eq!(reward, None);
    assert_eq!(readings.get(), 3);
    let first = &deep.branches[0];
    let second = &first.branches[0];
    assert_eq!(tree.get_number_of_visits(&deep), 0);
    assert_eq!(tree.get_number_of_visits(first), 0);
    assert!(tree.metadata(hash(&deep)).is_some());
    assert!(tree.metadata(hash(first)).is_some());
    assert!(tree.metadata(hash(second)).is_some());
    assert!(tree.metadata(hash(&second.branches[0])).is_none());

    let reward = tree.run_iteration_until(&deep, &|| false, &least_visited, &mut rng);
    assert_eq!(reward, Some(4));
    assert_eq!(tree.get_number_of_visits(&deep), 1);
    assert_eq!(tree.get_number_of_visits(first), 1);
    assert_eq!(tree.get_number_of_visits(second), 0);
}

#[test]
fn a_search_stops_at_the_pass_that_runs_out_of_time() {
    let root = Finished { reward: 5, by_self: true };
    let readings = Cell::new(0);
    let expired = || {
        readings.set(readings.get() + 1);
        readings.get() > 7
    };
    let mut tree = SearchTree::new();
    let completed = tree.search_until(root.clone(), generous(1_000), &expired, &least_visited);
    assert_eq!(completed, 7);
    assert_eq!(tree.get_number_of_visits(&root), 7);
    assert_eq!(tree.metadata(hash(&root)).expect("recorded").total_reward(), 35);
}

#[test]
fn a_step_is_not_taken_once_the_time_is_up() {
    let root = Shaped {
        label: 0,
        by_self: true,
        reward: 0,
        branches: vec![leaf(1, true, 1), leaf(2, true, 2)],
    };
    let mut rng = rand::rng();
    let mut tree = SearchTree::new();
    tree.record_result(hash(&root), 3);
    let next = tree.step_within(true, &root, State::NodesFullyExpanded, &least_visited, &mut rng);
    assert!(next.is_none());
    assert_eq!(tree.get_number_of_visits(&root), 1);
    assert!(tree.metadata(hash(&root.branches[0])).is_none());
    assert!(tree.metadata(hash(&root.branches[1])).is_none());
    assert!(!tree.metadata(hash(&root)).expect("recorded").is_fully_expanded());

    let finished = leaf(7, true, 4);
    let next = tree.step_within(true, &finished, State::InSimulation, &least_visited, &mut rng);
    assert!(next.is_none());
}

#[test]
fn a_step_in_time_is_a_step() {
    let root = Shaped {
        label: 0,
        by_self: true,
        reward: 0,
        branches: vec![leaf(1, true, 1), leaf(2, true, 2)],
    };
    let mut rng = rand::rng();
    let mut tree = SearchTree::new();
    tree.record_result(hash(&root.branches[0]), 1);
    let next = tree.step_within(false, &root, State::NodesFullyExpanded, &least_visited, &mut rng);
    match next {
        Some(Descent::Onward { child, state, simulated }) => {
            assert_eq!(child.label, 2);
            assert_eq!(state, State::InSimulation);
            assert!(!simulated);
        }
        other => panic!("expected a child, got {:?}", other),
    }
    assert!(tree.metadata(hash(&root)).is_some());
    assert!(tree.metadata(hash(&root.branches[1])).is_some());
    assert!(!tree.metadata(hash(&root)).expect("loaded").is_fully_expanded());

    tree.record_result(hash(&root.branches[1]), 2);
    tree.record_result(hash(&root.branches[1]), 2);
    let next = tree.step_within(false, &root, State::NodesFullyExpanded, &least_visited, &mut rng);
    match next {
        Some(Descent::Onward { child, state, simulated }) => {
            assert_eq!(child.label, 1);
            assert_eq!(state, State::NodesFullyExpanded);
            assert!(!simulated);
        }
        other => panic!("expected a child, got {:?}", other),
    }
    assert!(tree.metadata(hash(&root)).expect("loaded").is_fully_expanded());

    let next = tree.step_within(false, &root, State::InSimulation, &least_visited, &mut rng);
    match next {
        Some(Descent::Onward { child, state, simulated }) => {
            assert!(child.label == 1 || child.label == 2);
            assert_eq!(state, State::InSimulation);
            assert!(simulated);
        }
        other => panic!("expected a child, got {:?}", other),
    }

    let finished = leaf(7, true, 4);
    let next = tree.step_within(false, &finished, State::InSimulation, &least_visited, &mut rng);
    assert!(matches!(next, Some(Descent::Finished(4))));
    assert!(tree.metadata(hash(&finished)).is_none());
}

#[test]
fn the_learning_strategy_keeps_what_it_has_learned() {
    let game = Shaped {
        label: 0,
        by_self: true,
        reward: 0,
        branches: vec![leaf(1, true, 1), leaf(2, true, 9), leaf(3, true, 9)],
    };
    let by_total_reward = |_visits: u32, total_reward: i64, _parent: u32| total_reward as u64;
    let mut strategy = LearningSearchTreeStrategy::new(game.clone(), 3, by_total_reward);
    let first = strategy.select_child(game.clone(), game.branches.clone());
    assert_eq!(first.label, 2);
    assert_eq!(strategy.number_of_fully_expanded_nodes(), 1);
    let second = strategy.select_child(game.clone(), game.branches.clone());
    assert_eq!(second.label, 2);
    assert_eq!(strategy.number_of_fully_expanded_nodes(), 1);
}

#[test]
fn the_random_strategy_chooses_one_of_the_children() {
    let root = TicTacToeState::new();
    let children = match root.calculate_state() {
        NodeState::HasChildren(children) => children,
        NodeState::Reward(_) => panic!("the empty board has moves"),
    };
    let mut strategy = RandomStrategy;
    for _ in 0..50 {
        let chosen = strategy.select_child(root.clone(), children.clone());
        assert!(children.contains(&chosen));
    }
    let only = vec![position("XXOOOXX  ", Player::O)];
    assert_eq!(strategy.select_child(root.clone(), only.clone()), only[0]);
}

#[test]
fn the_learning_strategy_chooses_the_most_visited_child() {
    let root = Shaped {
        label: 0,
        by_self: true,
        reward: 0,
        branches: vec![leaf(1, true, 1), leaf(2, true, 9), leaf(3, true, 9)],
    };
    let by_total_reward = |_visits: u32, total_reward: i64, _parent: u32| total_reward as u64;
    let mut strategy = LearningSearchTreeStrategy::new(root.clone(), 12, by_total_reward);
    assert_eq!(strategy.number_of_fully_expanded_nodes(), 0);
    let chosen = strategy.select_child(root.clone(), root.branches.clone());
    assert_eq!(chosen.label, 2);
    assert_eq!(strategy.number_of_fully_expanded_nodes(), 1);
}

#[test]
fn the_learning_strategy_searches_as_long_as_the_clock_allows() {
    let game = Shaped {
        label: 0,
        by_self: true,
        reward: 0,
        branches: vec![leaf(1, true, 1), leaf(2, true, 9), leaf(3, true, 9)],
    };
    let by_total_reward = |_visits: u32, total_reward: i64, _parent: u32| total_reward as u64;
    let mut strategy = LearningSearchTreeStrategy::new(game.clone(), 12, by_total_reward);
    let chosen = strategy.select_child_until(game.clone(), game.branches.clone(), &|| true);
    assert_eq!(chosen.label, 1);
    assert_eq!(strategy.number_of_fully_expanded_nodes(), 0);
    let chosen = strategy.select_child_until(game.clone(), game.branches.clone(), &|| false);
    assert_eq!(chosen.label, 2);
    assert_eq!(strategy.number_of_fully_expanded_nodes(), 1);
}

#[test]
fn the_learning_strategy_plays_a_whole_game() {
    let mut strategy = LearningSearchTreeStrategy::new(TicTacToeState::new(), 50, uct_score(0.5));
    let mut current = TicTacToeState::new();
    let mut plies = 0;
    loop {
        match current.calculate_state() {
            NodeState::Reward(reward) => {
                assert!(reward == 1 || reward == 0 || reward == -1);
                break;
            }
            NodeState::HasChildren(children) => {
                let chosen = strategy.select_child(current.clone(), children.clone());
                assert!(children.contains(&chosen));
                current = chosen;
                plies += 1;
            }
        }
    }
    assert!(plies >= 5 && plies <= 9);
}
