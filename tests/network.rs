use commons::network::{
    check_termination, get_next_node, network_from_lines, step_all, Network, NetworkBuilder,
};

fn lines(v: &[&str]) -> Vec<String> {
    v.iter().map(|s| s.to_string()).collect()
}

fn example() -> Network {
    network_from_lines(&lines(&[
        "LR",
        "",
        "11A = (11B, XXX)",
        "11B = (XXX, 11Z)",
        "11Z = (11B, XXX)",
        "22A = (22B, XXX)",
        "22B = (22C, 22C)",
        "22C = (22Z, 22Z)",
        "22Z = (22B, 22B)",
        "XXX = (XXX, XXX)",
    ]))
    .unwrap()
}

#[test]
fn network_reads_turns_nodes_and_starts() {
    let net = example();
    assert_eq!(net.directions, vec!['L', 'R']);
    assert_eq!(net.nodes.len(), 8);
    assert_eq!(net.start_list, vec!["11A".to_string(), "22A".to_string()]);
    assert_eq!(net.get_left_node(&"11A".to_string()), "11B");
    assert_eq!(net.get_right_node(&"11B".to_string()), "11Z");
}

#[test]
fn later_line_replaces_a_node() {
    let net = network_from_lines(&lines(&["L", "AAA = (BBB, CCC)", "AAA = (DDD, EEE)"])).unwrap();
    assert_eq!(net.nodes.len(), 1);
    assert_eq!(net.get_left_node(&"AAA".to_string()), "DDD");
    assert_eq!(net.start_list.len(), 2);
}

#[test]
fn ghosts_reach_end_nodes_in_six_steps() {
    let net = example();
    let mut nodes = net.start_list.clone();
    let mut steps = 0;
    let mut direction_idx = 0;
    while !check_termination(&nodes) {
        nodes = step_all(direction_idx, &nodes, &net);
        steps += 1;
        direction_idx = (direction_idx + 1) % net.directions.len();
    }
    assert_eq!(steps, 6);
}

#[test]
fn next_node_follows_the_turn() {
    let net = example();
    assert_eq!(get_next_node(0, &"22B".to_string(), &net), "22C");
    assert_eq!(get_next_node(1, &"11A".to_string(), &net), "XXX");
    assert!(check_termination(&vec!["11Z".to_string(), "22Z".to_string()]));
    assert!(!check_termination(&vec!["11Z".to_string(), "22A".to_string()]));
}

#[test]
fn builder_keeps_the_file_name() {
    let b = Network::builder("input".to_string());
    assert_eq!(b.network_file_name, "input");
    assert_eq!(NetworkBuilder::new("x".to_string()).network_file_name, "x");
}
