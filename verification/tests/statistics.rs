use monte_carlo_tree_search::backpropagation::PathEntry;
use monte_carlo_tree_search::selection::are_all_visited;
use monte_carlo_tree_search::selection::decide_move;
use monte_carlo_tree_search::selection::first_max_index;
use monte_carlo_tree_search::selection::next_state;
use monte_carlo_tree_search::selection::unvisited_indices;
use monte_carlo_tree_search::selection::Move;
use monte_carlo_tree_search::selection::State;
use monte_carlo_tree_search::NodeMetadata;
use monte_carlo_tree_search::SearchTree;

fn visited_times(times: u32, reward: i64) -> NodeMetadata {
    let mut metadata = NodeMetadata::new();
    for _ in 0..times {
        metadata.record_result(reward);
    }
    metadata
}

#[test]
fn new_metadata_knows_nothing() {
    let metadata = NodeMetadata::new();
    assert_eq!(metadata.number_of_visits(), 0);
    assert_eq!(metadata.total_reward(), 0);
    assert!(!metadata.is_visited());
    assert!(!metadata.is_fully_expanded());
}

#[test]
fn record_result_counts_and_adds() {
    let mut metadata = NodeMetadata::new();
    metadata.record_result(5);
    assert_eq!(metadata.number_of_visits(), 1);
    assert_eq!(metadata.total_reward(), 5);
    assert!(metadata.is_visited());
    assert!(!metadata.is_fully_expanded());
    metadata.record_result(-7);
    assert_eq!(metadata.number_of_visits(), 2);
    assert_eq!(metadata.total_reward(), -2);
    assert!(metadata.is_visited());
}

#[test]
fn total_reward_wraps_around() {
    let mut metadata = NodeMetadata::new();
    metadata.record_result(i64::MAX);
    metadata.record_result(i64::MAX);
    assert_eq!(metadata.total_reward(), -2);
    assert_eq!(metadata.number_of_visits(), 2);
}

#[test]
fn flags_never_revert() {
    let mut metadata = NodeMetadata::new();
    metadata.set_fully_expanded();
    assert!(metadata.is_fully_expanded());
    assert!(!metadata.is_visited());
    let mut last_visits = metadata.number_of_visits();
    for reward in [3, -3, 0, 9] {
        metadata.record_result(reward);
        assert!(metadata.is_fully_expanded());
        assert!(metadata.is_visited());
        assert!(metadata.number_of_visits() > last_visits);
        last_visits = metadata.number_of_visits();
    }
    metadata.set_fully_expanded();
    assert!(metadata.is_fully_expanded());
    assert_eq!(metadata.number_of_visits(), 4);
    assert_eq!(metadata.total_reward(), 9);
}

#[test]
fn first_max_index_takes_the_first_of_equals() {
    assert_eq!(first_max_index(&vec![7]), 0);
    assert_eq!(first_max_index(&vec![1, 9, 3, 9]), 1);
    assert_eq!(first_max_index(&vec![4, 4, 4]), 0);
    assert_eq!(first_max_index(&vec![0, 1, 2, u64::MAX]), 3);
}

#[test]
fn first_max_index_depends_on_the_values_alone() {
    let values = vec![3, 8, 8, 1];
    let first = first_max_index(&values);
    for _ in 0..10 {
        assert_eq!(first_max_index(&values), first);
    }
    assert_eq!(first, 1);
}

#[test]
fn unvisited_children_are_found_in_order() {
    let metadata = vec![
        visited_times(1, 1),
        NodeMetadata::new(),
        visited_times(2, 0),
        NodeMetadata::new(),
    ];
    assert_eq!(unvisited_indices(&metadata), vec![1, 3]);
    assert!(!are_all_visited(&metadata));

    let all = vec![visited_times(1, 1), visited_times(3, -1)];
    assert_eq!(unvisited_indices(&all), Vec::<usize>::new());
    assert!(are_all_visited(&all));

    let none: Vec<NodeMetadata> = Vec::new();
    assert_eq!(unvisited_indices(&none), Vec::<usize>::new());
    assert!(are_all_visited(&none));
}

#[test]
fn moves_follow_the_state_of_the_descent() {
    assert_eq!(decide_move(State::NodesFullyExpanded, true, false), Move::Select);
    assert_eq!(decide_move(State::NodesFullyExpanded, false, true), Move::Select);
    assert_eq!(decide_move(State::NodesFullyExpanded, true, true), Move::Select);
    assert_eq!(decide_move(State::NodesFullyExpanded, false, false), Move::Expand);
    assert_eq!(decide_move(State::ChooseSimulationStart, false, false), Move::Expand);
    assert_eq!(decide_move(State::ChooseSimulationStart, true, false), Move::Expand);
    assert_eq!(decide_move(State::ChooseSimulationStart, false, true), Move::Select);
    assert_eq!(decide_move(State::ChooseSimulationStart, true, true), Move::Select);
    assert_eq!(decide_move(State::InSimulation, false, false), Move::Simulate);
    assert_eq!(decide_move(State::InSimulation, true, true), Move::Simulate);

    assert_eq!(next_state(Move::Select), State::NodesFullyExpanded);
    assert_eq!(next_state(Move::Expand), State::InSimulation);
    assert_eq!(next_state(Move::Simulate), State::InSimulation);
}

#[test]
fn the_store_creates_an_entry_once() {
    let mut tree = SearchTree::new();
    assert!(tree.metadata(17).is_none());
    let fresh = tree.load_metadata(17);
    assert_eq!(fresh.number_of_visits(), 0);
    assert!(!fresh.is_visited());
    assert!(tree.metadata(17).is_some());
    assert!(tree.metadata(18).is_none());

    tree.record_result(17, 4);
    let again = tree.load_metadata(17);
    assert_eq!(again.number_of_visits(), 1);
    assert_eq!(again.total_reward(), 4);
    assert!(tree.metadata(18).is_none());
}

#[test]
fn the_store_keeps_what_was_recorded() {
    let mut tree = SearchTree::new();
    tree.record_result(1, 3);
    tree.record_result(2, -3);
    tree.record_result(1, 3);
    tree.set_fully_expanded(2);
    tree.set_fully_expanded(3);

    let one = tree.metadata(1).expect("recorded");
    assert_eq!(one.number_of_visits(), 2);
    assert_eq!(one.total_reward(), 6);
    assert!(one.is_visited());
    assert!(!one.is_fully_expanded());

    let two = tree.metadata(2).expect("recorded");
    assert_eq!(two.number_of_visits(), 1);
    assert_eq!(two.total_reward(), -3);
    assert!(two.is_fully_expanded());

    let three = tree.metadata(3).expect("marked");
    assert_eq!(three.number_of_visits(), 0);
    assert!(!three.is_visited());
    assert!(three.is_fully_expanded());
}

#[test]
fn backpropagation_flips_the_sign_and_skips_simulated_nodes() {
    let mut tree = SearchTree::new();
    let path = vec![
        PathEntry { key: 10, by_self: false, simulated: false },
        PathEntry { key: 11, by_self: true, simulated: false },
        PathEntry { key: 12, by_self: false, simulated: true },
        PathEntry { key: 13, by_self: true, simulated: true },
    ];
    tree.backpropagate(&path, 7);

    let root = tree.metadata(10).expect("recorded");
    assert_eq!(root.number_of_visits(), 1);
    assert_eq!(root.total_reward(), -7);
    let expanded = tree.metadata(11).expect("recorded");
    assert_eq!(expanded.number_of_visits(), 1);
    assert_eq!(expanded.total_reward(), 7);
    assert!(tree.metadata(12).is_none());
    assert!(tree.metadata(13).is_none());
}

#[test]
fn backpropagation_counts_a_key_as_often_as_it_occurs() {
    let mut tree = SearchTree::new();
    let path = vec![
        PathEntry { key: 5, by_self: true, simulated: false },
        PathEntry { key: 6, by_self: false, simulated: false },
        PathEntry { key: 5, by_self: false, simulated: false },
    ];
    tree.backpropagate(&path, 2);
    let twice = tree.metadata(5).expect("recorded");
    assert_eq!(twice.number_of_visits(), 2);
    assert_eq!(twice.total_reward(), 0);
    let once = tree.metadata(6).expect("recorded");
    assert_eq!(once.number_of_visits(), 1);
    assert_eq!(once.total_reward(), -2);
}

#[test]
fn the_lowest_reward_has_no_opposite() {
    let mut tree = SearchTree::new();
    let path = vec![PathEntry { key: 1, by_self: false, simulated: false }];
    tree.backpropagate(&path, i64::MIN);
    assert_eq!(tree.metadata(1).expect("recorded").total_reward(), i64::MIN);

    let mut other = SearchTree::new();
    other.backpropagate(&path, i64::MAX);
    assert_eq!(other.metadata(1).expect("recorded").total_reward(), -i64::MAX);
}

#[test]
fn an_empty_path_records_nothing() {
    let mut tree = SearchTree::new();
    tree.record_result(9, 1);
    tree.backpropagate(&Vec::new(), 100);
    assert_eq!(tree.metadata(9).expect("recorded").number_of_visits(), 1);
    assert_eq!(tree.metadata(9).expect("recorded").total_reward(), 1);
}
