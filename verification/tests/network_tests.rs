use networkle::decision_tree::{
    is_valid_distance, map_distances_to_stations, one_step_entropy, DecisionTree, DecisionTreeNode, EdgeType,
    EntropyInput, LineRelation, Station, WalkStep,
};
use networkle::graph::{distances_from, get_dist_matrix};
use networkle::network::{build_network, AdjacentStation, AdjacentStationDetails, StationInfo};
use std::collections::HashSet;

fn cat_entropy(counts: &[usize], num_stations: f32) -> f32 {
    let mut entropy = 0f32;
    for &value in counts {
        if value == 1 {
            continue;
        }
        let v = value as f32;
        entropy += (v / num_stations) * ((v.ln() / v) + ((v - 1f32) / v) * (v / (v - 1f32)).ln());
    }
    entropy
}

fn entropy_score(input: &EntropyInput) -> u32 {
    let n = input.num_stations as f32;
    (cat_entropy(&input.same_line_counts, n) + cat_entropy(&input.other_line_counts, n)).to_bits()
}

fn constant_score(_input: &EntropyInput) -> u32 {
    0
}

fn info(name: &str, lines: &[&str], adjacent: Vec<AdjacentStation>) -> StationInfo {
    StationInfo {
        name: name.to_string(),
        lines: lines.iter().map(|l| l.to_string()).collect(),
        adjacent,
    }
}

fn by_name(name: &str) -> AdjacentStation {
    AdjacentStation::Name(name.to_string())
}

/// A–B–C on the red line, C–D on the blue line, E alone on the green line.
fn sample_infos() -> Vec<StationInfo> {
    vec![
        info("A", &["red"], vec![by_name("B")]),
        info("B", &["red"], vec![by_name("A"), by_name("C")]),
        info("C", &["red", "blue"], vec![by_name("B"), AdjacentStation::Details(AdjacentStationDetails { name: "D".to_string() })]),
        info("D", &["blue"], vec![by_name("C"), by_name("Nowhere")]),
        info("E", &["green"], vec![]),
    ]
}

fn set(items: &[usize]) -> HashSet<usize> {
    items.iter().cloned().collect()
}

#[test]
fn network_numbers_stations_in_order_of_first_appearance() {
    let mut infos = sample_infos();
    infos.push(info("B", &["yellow"], vec![by_name("E")]));
    let network = build_network(&infos);
    let names: Vec<&str> = network.stations.iter().map(|s| s.name.as_str()).collect();
    assert_eq!(names, vec!["A", "B", "C", "D", "E"]);
    assert_eq!(network.valid_stations, set(&[0, 1, 2, 3, 4]));
    // the second record of B adds a line and a neighbour
    assert!(network.neighbours[1].contains(&4));
    assert_eq!(network.stations[1].dist_to_stations, vec![1, 0, 1, 2, 1]);
}

#[test]
fn network_distances_and_line_categories() {
    let network = build_network(&sample_infos());
    assert_eq!(network.stations[0].dist_to_stations, vec![0, 1, 2, 3, u32::MAX]);
    assert_eq!(network.stations[3].dist_to_stations, vec![3, 2, 1, 0, u32::MAX]);
    assert_eq!(network.stations[4].dist_to_stations, vec![u32::MAX, u32::MAX, u32::MAX, u32::MAX, 0]);
    assert_eq!(network.stations[0].cur_line_stations, set(&[0, 1, 2]));
    assert_eq!(network.stations[0].other_line_stations, set(&[3, 4]));
    assert_eq!(network.stations[2].cur_line_stations, set(&[0, 1, 2, 3]));
    assert_eq!(network.stations[2].other_line_stations, set(&[4]));
    assert_eq!(network.stations[4].cur_line_stations, set(&[4]));
    // neighbour names that are no station's are left out
    assert_eq!(network.neighbours[3], vec![2]);
}

#[test]
fn station_without_lines_shares_none() {
    let infos = vec![info("A", &[], vec![]), info("B", &["red"], vec![])];
    let network = build_network(&infos);
    assert_eq!(network.stations[0].cur_line_stations, set(&[]));
    assert_eq!(network.stations[0].other_line_stations, set(&[0, 1]));
}

#[test]
fn dist_matrix_is_breadth_first() {
    // 0 -> 1 -> 2, 0 -> 2 directly, 3 -> 0; 4 unreachable from all but itself
    let graph = vec![vec![1, 2], vec![2], vec![], vec![0, 0], vec![]];
    let matrix = get_dist_matrix(&graph, &vec![0, 3, 4]);
    assert_eq!(matrix.len(), 3);
    assert_eq!(matrix[0], vec![0, 1, 1, u32::MAX, u32::MAX]);
    assert_eq!(matrix[1], vec![1, 2, 2, 0, u32::MAX]);
    assert_eq!(matrix[2], vec![u32::MAX, u32::MAX, u32::MAX, u32::MAX, 0]);
}

#[test]
fn distance_to_self_is_zero() {
    let graph = vec![vec![1], vec![0], vec![2]];
    for s in 0..3 {
        assert_eq!(distances_from(&graph, s)[s], 0);
    }
}

#[test]
fn grouping_by_distance() {
    let valid = set(&[0, 1, 2, 3]);
    let category = set(&[0, 1, 3, 7]);
    let groups = map_distances_to_stations(&valid, &category, &vec![0, 2, 1, 2]);
    assert_eq!(groups, vec![(0, vec![0]), (2, vec![1, 3])]);
}

#[test]
fn grouping_of_empty_category() {
    let groups = map_distances_to_stations(&set(&[0, 1]), &set(&[]), &vec![0, 1]);
    assert!(groups.is_empty());
}

#[test]
fn one_step_picks_first_best_score() {
    let network = build_network(&sample_infos());
    let best = one_step_entropy(&network.stations, &network.valid_stations, &entropy_score);
    assert_eq!(best.map(|(s, _)| s), Some(4));
    // ties go to the first candidate
    let first = one_step_entropy(&network.stations, &network.valid_stations, &constant_score);
    assert_eq!(first, Some((0, 0)));
    let none = one_step_entropy(&network.stations, &set(&[]), &constant_score);
    assert_eq!(none, None);
}

#[test]
fn one_step_scores_from_distance_counts() {
    let network = build_network(&sample_infos());
    let seen = std::cell::RefCell::new(Vec::new());
    let record = |input: &EntropyInput| {
        seen.borrow_mut().push((input.same_line_counts.clone(), input.other_line_counts.clone(), input.num_stations));
        0
    };
    one_step_entropy(&network.stations, &set(&[0, 2, 3]), &record);
    let seen = seen.into_inner();
    assert_eq!(seen, vec![(vec![1, 1], vec![1], 3), (vec![1, 1, 1], vec![], 3), (vec![1, 1], vec![1], 3)]);
}

fn render(tree: &DecisionTree) -> Vec<String> {
    tree.print()
}

#[test]
fn tree_with_entropy_score() {
    let network = build_network(&sample_infos());
    let tree = DecisionTree::new(network.stations, &network.valid_stations, &entropy_score);
    assert_eq!(
        render(&tree),
        vec![
            "E",
            "| └─ OtherLine(4294967295) -> B",
            "| | └─ SameLine(1) -> A",
            "| | | └─ SameLine(2) -> C",
            "| | └─ OtherLine(2) -> D",
        ]
    );
}

#[test]
fn tree_with_constant_score_guesses_in_order() {
    let network = build_network(&sample_infos());
    let tree = DecisionTree::new(network.stations, &network.valid_stations, &constant_score);
    assert_eq!(
        render(&tree),
        vec![
            "A",
            "| └─ SameLine(1) -> B",
            "| └─ SameLine(2) -> C",
            "| └─ OtherLine(3) -> D",
            "| └─ OtherLine(4294967295) -> E",
        ]
    );
    let root = tree.root();
    assert_eq!(root.station(), 0);
    assert!(!root.is_leaf());
    assert_eq!(root.get_child(EdgeType::SameLine(2)).map(|c| c.name().as_str()), Some("C"));
    assert!(root.get_child(EdgeType::SameLine(3)).is_none());
    assert!(root.get_child(EdgeType::SameLine(2)).unwrap().is_leaf());
}

#[test]
fn node_new_without_candidates() {
    let network = build_network(&sample_infos());
    assert!(DecisionTreeNode::new(network.stations, &set(&[]), &constant_score).is_none());
}

#[test]
fn node_new_on_subset() {
    let network = build_network(&sample_infos());
    let node = DecisionTreeNode::new(network.stations, &set(&[1, 3]), &constant_score).unwrap();
    assert_eq!(node.station(), 1);
    assert_eq!(node.name(), "B");
    assert_eq!(node.children().len(), 1);
    assert_eq!(node.children()[0].0, EdgeType::OtherLine(2));
    assert_eq!(node.children()[0].1.station(), 3);
}

fn play(tree: &DecisionTree, stations: &[Station], hidden: usize) -> usize {
    let mut node = tree.root();
    let mut guesses = 1;
    loop {
        if node.station() == hidden {
            return guesses;
        }
        let guess = &stations[node.station()];
        let relation = if guess.cur_line_stations.contains(&hidden) {
            LineRelation::SharesAtLeastOneLine
        } else {
            LineRelation::SharesNoLines
        };
        match node.walk_step(Some((relation, guess.dist_to_stations[hidden]))) {
            WalkStep::Next(child) => node = child,
            _ => panic!("the answers of a candidate always lead on"),
        }
        guesses += 1;
    }
}

#[test]
fn every_hidden_station_is_found() {
    for score in [entropy_score as fn(&EntropyInput) -> u32, constant_score] {
        let tree = DecisionTree::new(build_network(&sample_infos()).stations, &set(&[0, 1, 2, 3, 4]), &score);
        let stations = build_network(&sample_infos()).stations;
        for hidden in 0..5 {
            assert!(play(&tree, &stations, hidden) <= 5);
        }
    }
}

#[test]
fn walk_steps() {
    let network = build_network(&sample_infos());
    let tree = DecisionTree::new(network.stations, &network.valid_stations, &constant_score);
    let root = tree.root();
    assert!(matches!(root.walk_step(None), WalkStep::Found));
    match root.walk_step(Some((LineRelation::SharesNoLines, 3))) {
        WalkStep::Next(child) => assert_eq!(child.name(), "D"),
        _ => panic!("expected the subtree of OtherLine(3)"),
    }
    assert!(matches!(root.walk_step(Some((LineRelation::SharesAtLeastOneLine, 7))), WalkStep::NoMatchingBranch));
}

#[test]
fn line_relations() {
    assert_eq!(LineRelation::from_index(0), Some(LineRelation::SharesAtLeastOneLine));
    assert_eq!(LineRelation::from_index(1), Some(LineRelation::SharesNoLines));
    assert_eq!(LineRelation::from_index(2), None);
    assert_eq!(LineRelation::SharesAtLeastOneLine.edge(4), EdgeType::SameLine(4));
    assert_eq!(LineRelation::SharesNoLines.edge(0), EdgeType::OtherLine(0));
    assert!(!is_valid_distance(0));
    assert!(is_valid_distance(1));
}

#[test]
fn adjacent_names() {
    assert_eq!(by_name("X").into_name(), "X");
    assert_eq!(AdjacentStation::Details(AdjacentStationDetails { name: "Y".to_string() }).into_name(), "Y");
    assert_eq!(AdjacentStation::Details(AdjacentStationDetails { name: "Z".to_string() }).name(), "Z");
}

#[test]
fn candidates_that_are_no_station_are_only_counted() {
    let network = build_network(&sample_infos());
    let seen = std::cell::RefCell::new(Vec::new());
    let record = |input: &EntropyInput| {
        seen.borrow_mut().push(input.num_stations);
        0
    };
    let best = one_step_entropy(&network.stations, &set(&[1, 3, 42]), &record);
    assert_eq!(best, Some((1, 0)));
    assert_eq!(seen.into_inner(), vec![3, 3]);
    assert!(one_step_entropy(&network.stations, &set(&[42]), &constant_score).is_none());
    let node = DecisionTreeNode::new(build_network(&sample_infos()).stations, &set(&[1, 3, 42]), &constant_score).unwrap();
    assert_eq!(node.station(), 1);
    assert_eq!(node.children().len(), 1);
}

fn guesses(node: &DecisionTreeNode, out: &mut Vec<usize>) {
    out.push(node.station());
    for (_, child) in node.children() {
        guesses(child, out);
    }
}

#[test]
fn subtrees_guess_only_what_their_answer_leaves() {
    let stations = build_network(&sample_infos()).stations;
    for score in [entropy_score as fn(&EntropyInput) -> u32, constant_score] {
        let tree = DecisionTree::new(build_network(&sample_infos()).stations, &set(&[0, 1, 2, 3, 4]), &score);
        let mut stack = vec![tree.root()];
        while let Some(node) = stack.pop() {
            let guess = &stations[node.station()];
            for (edge, child) in node.children() {
                let mut below = Vec::new();
                guesses(child, &mut below);
                for x in below {
                    assert_ne!(x, node.station());
                    match edge {
                        EdgeType::SameLine(d) => assert!(guess.cur_line_stations.contains(&x) && guess.dist_to_stations[x] == *d),
                        EdgeType::OtherLine(d) => assert!(guess.other_line_stations.contains(&x) && guess.dist_to_stations[x] == *d),
                    }
                }
                stack.push(child);
            }
        }
    }
}

#[test]
fn choice_ignores_stations_that_are_not_candidates() {
    let mut network = build_network(&sample_infos());
    let before = one_step_entropy(&network.stations, &set(&[0, 1, 2]), &entropy_score);
    network.stations[4].cur_line_stations = set(&[0, 1, 2, 3, 4]);
    network.stations[4].dist_to_stations = vec![7, 7, 7, 7, 0];
    let after = one_step_entropy(&network.stations, &set(&[0, 1, 2]), &entropy_score);
    assert_eq!(before, after);
}

#[test]
fn adding_an_edge_never_lengthens_a_distance() {
    let graph = vec![vec![1], vec![2], vec![3], vec![], vec![]];
    let mut more = graph.clone();
    more[0].push(3);
    let before = get_dist_matrix(&graph, &vec![0, 4]);
    let after = get_dist_matrix(&more, &vec![0, 4]);
    assert_eq!(before[0], vec![0, 1, 2, 3, u32::MAX]);
    assert_eq!(after[0], vec![0, 1, 2, 1, u32::MAX]);
    for s in 0..2 {
        for t in 0..5 {
            assert!(after[s][t] <= before[s][t]);
        }
    }
}

#[test]
fn choice_survives_removing_stations_that_are_not_candidates() {
    let full = build_network(&sample_infos());
    let mut infos = sample_infos();
    infos.pop();
    let without_e = build_network(&infos);
    for score in [entropy_score as fn(&EntropyInput) -> u32, constant_score] {
        let a = one_step_entropy(&full.stations, &set(&[0, 1, 2, 3]), &score);
        let b = one_step_entropy(&without_e.stations, &set(&[0, 1, 2, 3]), &score);
        assert_eq!(a, b);
        let (s, _) = a.unwrap();
        assert_eq!(full.stations[s].name, without_e.stations[s].name);
    }
}
