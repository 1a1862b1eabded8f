use maelstrom_node::{build_broadcast_topology, is_lower_node_id, Topology};
use std::collections::{HashMap, HashSet};

type MapTopology = HashMap<String, Vec<String>>;

fn to_topology(map: &MapTopology) -> Topology {
    map.iter().map(|(k, v)| (k.clone(), v.clone())).collect()
}

fn build_broadcast_topology_internal(base_topology: &MapTopology) -> HashMap<String, MapTopology> {
    let nodes: Vec<String> = base_topology.keys().cloned().collect();
    let t = to_topology(base_topology);

    let mut complete_topology = HashMap::new();
    for node in nodes.iter() {
        let broadcast_topology = build_broadcast_topology(node, &nodes, &t);
        let as_map: MapTopology = broadcast_topology.into_iter().collect();
        complete_topology.insert(node.clone(), as_map);
    }

    complete_topology
}

fn collect_topologies(topologies: &HashMap<String, MapTopology>) -> MapTopology {
    let nodes: Vec<String> = topologies.keys().cloned().collect();
    let mut complete_topology: MapTopology = HashMap::with_capacity(nodes.len());

    for node in nodes.iter() {
        let topology = &topologies[node];
        for node in nodes.iter() {
            complete_topology
                .entry(node.to_owned())
                .or_default()
                .extend(topology[node].iter().cloned());
        }
    }

    complete_topology
}

fn check_topology_is_complete(mut topology: MapTopology) -> bool {
    let mut valid = true;
    let nodes: HashSet<String> = topology.keys().cloned().collect();

    for node in nodes.iter() {
        let adj: HashSet<String> = topology.get_mut(node).unwrap().iter().cloned().collect();

        let mut diff = nodes.difference(&adj).collect::<Vec<&String>>();
        let pos = diff.iter().position(|&i| i == node);
        if !pos.is_some() {
            println!("Self referencial broadcast for node {:?}", node);
            valid &= false;
        } else {
            diff.remove(pos.unwrap());
        }
        if !diff.is_empty() {
            println!("Nodes {:?} are missing for {:?}", diff, node);
            valid &= false;
        }
    }

    valid
}

fn test_build_broadcast_topology_internal(topology: MapTopology) -> bool {
    let all_topologies = build_broadcast_topology_internal(&topology);
    println!("All topologies: {:#?}", all_topologies);

    let complete_topology = collect_topologies(&all_topologies);
    println!("Complete topology: {:#?}", complete_topology);

    check_topology_is_complete(complete_topology)
}

#[test]
fn test_is_lower_node_id() {
    assert!(is_lower_node_id("n1", "n2"));
    assert!(!is_lower_node_id("n1", "n1"));
    assert!(!is_lower_node_id("n2", "n1"));
}

#[test]
fn test_build_broadcast_topology1() {
    let topology: MapTopology = HashMap::from([]);

    assert!(test_build_broadcast_topology_internal(topology));
}

#[test]
fn test_build_broadcast_topology2() {
    let topology: MapTopology = HashMap::from([(String::from("n0"), vec![])]);

    assert!(test_build_broadcast_topology_internal(topology));
}

#[test]
fn test_build_broadcast_topology3() {
    let topology: MapTopology =
        HashMap::from([(String::from("n0"), vec![]), (String::from("n1"), vec![])]);

    assert!(!test_build_broadcast_topology_internal(topology));
}

#[test]
fn test_build_broadcast_topology4() {
    let topology: MapTopology = HashMap::from([
        (String::from("n0"), vec![String::from("n1")]),
        (String::from("n1"), vec![String::from("n0")]),
    ]);

    assert!(test_build_broadcast_topology_internal(topology));
}

#[test]
fn test_build_broadcast_topology5() {
    let topology: MapTopology = HashMap::from([
        (
            String::from("n0"),
            vec![String::from("n1"), String::from("n2")],
        ),
        (
            String::from("n1"),
            vec![String::from("n3"), String::from("n0")],
        ),
        (
            String::from("n2"),
            vec![String::from("n3"), String::from("n0")],
        ),
        (
            String::from("n3"),
            vec![String::from("n1"), String::from("n2")],
        ),
    ]);

    assert!(test_build_broadcast_topology_internal(topology));
}

#[test]
fn test_build_broadcast_topology6() {
    let topology: MapTopology = HashMap::from([
        (
            String::from("n0"),
            vec![String::from("n1"), String::from("n3")],
        ),
        (
            String::from("n1"),
            vec![String::from("n0"), String::from("n2"), String::from("n4")],
        ),
        (
            String::from("n2"),
            vec![String::from("n1"), String::from("n5")],
        ),
        (
            String::from("n3"),
            vec![String::from("n0"), String::from("n4")],
        ),
        (
            String::from("n4"),
            vec![String::from("n1"), String::from("n3"), String::from("n5")],
        ),
        (
            String::from("n5"),
            vec![String::from("n2"), String::from("n4")],
        ),
    ]);

    assert!(test_build_broadcast_topology_internal(topology));
}

fn entry<'a>(bt: &'a [(String, Vec<String>)], key: &str) -> &'a Vec<String> {
    &bt.iter().find(|(k, _)| k == key).unwrap().1
}

fn as_set(v: &[String]) -> HashSet<String> {
    v.iter().cloned().collect()
}

// The degenerate-source law on a concrete input: the entry for the node
// itself is exactly its direct neighbour set.
#[test]
fn test_own_entry_is_neighbour_set() {
    let t: Topology = vec![
        ("n0".to_string(), vec!["n1".to_string(), "n2".to_string()]),
        ("n1".to_string(), vec!["n0".to_string()]),
        ("n2".to_string(), vec!["n0".to_string()]),
    ];
    let nodes = vec!["n0".to_string(), "n1".to_string(), "n2".to_string()];
    let bt = build_broadcast_topology(&nodes[0], &nodes, &t);
    assert_eq!(
        as_set(entry(&bt, "n0")),
        HashSet::from(["n1".to_string(), "n2".to_string()])
    );
}

// The ring with both diagonals: every peer reaches every other in one hop,
// so nothing needs forwarding on a peer's behalf.
#[test]
fn test_ring_with_diagonals_prunes_everything() {
    let t: Topology = vec![
        ("n0".to_string(), vec!["n1".to_string(), "n3".to_string(), "n2".to_string()]),
        ("n1".to_string(), vec!["n0".to_string(), "n2".to_string(), "n3".to_string()]),
        ("n2".to_string(), vec!["n1".to_string(), "n3".to_string(), "n0".to_string()]),
        ("n3".to_string(), vec!["n2".to_string(), "n0".to_string(), "n1".to_string()]),
    ];
    let nodes: Vec<String> = (0..4).map(|i| format!("n{}", i)).collect();
    let bt = build_broadcast_topology(&nodes[0], &nodes, &t);
    assert!(entry(&bt, "n1").is_empty());
    assert!(entry(&bt, "n3").is_empty());
}

// The plain ring: when this node shows up in a wavefront, only
// lower-numbered members of that wavefront may expand, so the far
// neighbour stays a forwarding target.
#[test]
fn test_ring_lower_id_tie_break() {
    let t: Topology = vec![
        ("n0".to_string(), vec!["n1".to_string(), "n3".to_string()]),
        ("n1".to_string(), vec!["n0".to_string(), "n2".to_string()]),
        ("n2".to_string(), vec!["n1".to_string(), "n3".to_string()]),
        ("n3".to_string(), vec!["n2".to_string(), "n0".to_string()]),
    ];
    let nodes: Vec<String> = (0..4).map(|i| format!("n{}", i)).collect();
    let bt = build_broadcast_topology(&nodes[0], &nodes, &t);
    assert_eq!(as_set(entry(&bt, "n1")), HashSet::from(["n3".to_string()]));
    assert_eq!(as_set(entry(&bt, "n3")), HashSet::from(["n1".to_string()]));
    assert!(entry(&bt, "n2").is_empty());
    assert_eq!(
        as_set(entry(&bt, "n0")),
        HashSet::from(["n1".to_string(), "n3".to_string()])
    );
}

// The node-id order is numeric, not lexicographic, and ids that do not
// parse count as zero.
#[test]
fn test_node_id_order_is_numeric() {
    assert!(is_lower_node_id("n9", "n10"));
    assert!(!is_lower_node_id("n10", "n9"));
    assert!(is_lower_node_id("c2", "n3"));
    assert!(!is_lower_node_id("n", "n0"));
    assert!(is_lower_node_id("nx", "n1"));
    assert!(!is_lower_node_id("n5", "n5"));
}

#[test]
fn test_parse_node_number() {
    assert_eq!(maelstrom_node::parse_node_number("n17"), 17);
    assert_eq!(maelstrom_node::parse_node_number("c0"), 0);
    assert_eq!(maelstrom_node::parse_node_number("n"), 0);
    assert_eq!(maelstrom_node::parse_node_number("nabc"), 0);
    assert_eq!(
        maelstrom_node::parse_node_number("n99999999999999999999999999"),
        0
    );
}
