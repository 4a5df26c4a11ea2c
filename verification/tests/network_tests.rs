use petgraph::dot::{Config, Dot};
use spiking_network::impulse::Impulse;
use spiking_network::model_file::parse_layer_sizes;
use spiking_network::network::{NeuralNetwork, NeuronKey};

fn edge_list(rete: &NeuralNetwork) -> Vec<(usize, usize, bool, usize)> {
    rete.Network
        .raw_edges()
        .iter()
        .map(|e| (e.source().index(), e.target().index(), e.weight.0, e.weight.1))
        .collect()
}

#[test]
fn test_create() {
    let same = Vec::from([-1.0, -1.0, -1., -1.]);
    let next = Vec::from([2.0, 2.0, 2.0, 2.0]);
    let rete = NeuralNetwork::new_from_arr(&[2, 2]).unwrap();
    let weighted = rete.Network.map(|_, n| n.0, |_, w| if w.0 { same[w.1] } else { next[w.1] });
    let output = format!("{}", Dot::with_config(&weighted, &[Config::NodeNoLabel]));
    assert_eq!(output, "digraph {\n    0 [ ]\n    1 [ ]\n    2 [ ]\n    3 [ ]\n    0 -> 1 [ label = \"-1\" ]\n    1 -> 0 [ label = \"-1\" ]\n    2 -> 3 [ label = \"-1\" ]\n    3 -> 2 [ label = \"-1\" ]\n    0 -> 2 [ label = \"2\" ]\n    0 -> 3 [ label = \"2\" ]\n    1 -> 2 [ label = \"2\" ]\n    1 -> 3 [ label = \"2\" ]\n}\n");
}

#[test]
fn test_get_neuroni() {
    let rete = NeuralNetwork::new_from_arr(&[2]).unwrap();
    assert_eq!(rete.get_neuroni().into_iter().map(|n| n.Nid).collect::<Vec<u32>>(), [0, 1]);
}

#[test]
fn newNeuralNetwork() {
    let mut a = Vec::new();
    let mut b = Vec::new();
    let mut cnt = 0;
    for _n in 1..4 {
        for _j in 1..4 {
            let neurone_temp = NeuronKey { Nid: cnt, layer: _n };
            cnt += 1;
            b.push(neurone_temp);
        }
        a.push(b.clone());
        b.clear();
    }
    let rete = NeuralNetwork::new(a.clone()).unwrap();
    assert_eq!(rete.Network.node_count(), 9);
    assert_eq!(rete.Network.edge_count(), 9 * 5 - 3 * 3)
}

#[test]
fn new_NN_from_file() {
    let nodes_per_layer: Vec<u32> = Vec::from([4, 3, 12, 4, 5, 4, 6]);
    let header = format!("{:?}\n", nodes_per_layer);
    let first_line = header.lines().next().unwrap();
    let sizes = parse_layer_sizes(first_line.as_bytes()).unwrap();
    assert_eq!(sizes, nodes_per_layer);
    let rete = NeuralNetwork::new_from_sizes(&sizes).unwrap();
    assert_eq!(rete.Network.node_count(), 38);
    assert_eq!(rete.Network.edge_count(), 384);
}

#[test]
fn new_keeps_neurons_in_order() {
    let layers = vec![
        vec![NeuronKey { Nid: 7, layer: 1 }, NeuronKey { Nid: 3, layer: 1 }],
        vec![NeuronKey { Nid: 5, layer: 2 }],
    ];
    let rete = NeuralNetwork::new(layers).unwrap();
    let ns: Vec<(u32, usize)> = rete.get_neuroni().iter().map(|k| (k.Nid, k.layer)).collect();
    assert_eq!(ns, vec![(7, 1), (3, 1), (5, 2)]);
    assert_eq!(rete.levels, 2);
    assert!(rete.out.is_empty());
}

#[test]
fn new_groups_same_layer_synapses_first() {
    let rete = NeuralNetwork::new_from_arr(&[2, 2]).unwrap();
    assert_eq!(
        edge_list(&rete),
        vec![
            (0, 1, true, 0),
            (1, 0, true, 1),
            (2, 3, true, 2),
            (3, 2, true, 3),
            (0, 2, false, 0),
            (0, 3, false, 1),
            (1, 2, false, 2),
            (1, 3, false, 3),
        ]
    );
}

#[test]
fn new_from_sizes_lists_synapses_in_file_order() {
    let rete = NeuralNetwork::new_from_sizes(&vec![2, 1]).unwrap();
    assert_eq!(
        edge_list(&rete),
        vec![(0, 1, true, 0), (0, 2, false, 1), (1, 0, true, 2), (1, 2, false, 3)]
    );
    assert_eq!(rete.levels, 2);
}

#[test]
fn shared_identifiers_get_no_synapse() {
    let layers = vec![vec![NeuronKey { Nid: 4, layer: 1 }, NeuronKey { Nid: 4, layer: 1 }]];
    let rete = NeuralNetwork::new(layers).unwrap();
    assert_eq!(rete.Network.node_count(), 2);
    assert_eq!(rete.Network.edge_count(), 0);
}

#[test]
fn layers_two_apart_are_not_joined() {
    let layers = vec![
        vec![NeuronKey { Nid: 0, layer: 1 }],
        vec![NeuronKey { Nid: 1, layer: 3 }],
    ];
    let rete = NeuralNetwork::new(layers).unwrap();
    assert_eq!(rete.Network.edge_count(), 0);
}

#[test]
fn empty_network() {
    let rete = NeuralNetwork::new(Vec::new()).unwrap();
    assert_eq!(rete.Network.node_count(), 0);
    assert_eq!(rete.levels, 0);
    let rete = NeuralNetwork::new_from_arr(&[]).unwrap();
    assert_eq!(rete.Network.node_count(), 0);
}

#[test]
fn get_layer_lists_layer_members() {
    let rete = NeuralNetwork::new_from_arr(&[2, 3]).unwrap();
    assert_eq!(rete.get_layer(1), vec![0, 1]);
    assert_eq!(rete.get_layer(2), vec![2, 3, 4]);
    assert_eq!(rete.get_layer(3), Vec::<u32>::new());
    assert_eq!(rete.get_layer(0), Vec::<u32>::new());
}

#[test]
fn find_neighbors_lists_layer_peers_and_next_layer() {
    let rete = NeuralNetwork::new_from_arr(&[2, 2]).unwrap();
    let mut n0 = rete.find_neighbors(0);
    n0.sort();
    assert_eq!(n0, vec![1, 2, 3]);
    assert_eq!(rete.find_neighbors(2), vec![3]);
    assert!(rete.find_neighbors(9).is_empty());
}

#[test]
fn find_neighbors_lists_each_target_node_once() {
    let layers = vec![
        vec![NeuronKey { Nid: 0, layer: 1 }],
        vec![NeuronKey { Nid: 1, layer: 2 }, NeuronKey { Nid: 1, layer: 2 }],
    ];
    let rete = NeuralNetwork::new(layers).unwrap();
    assert_eq!(rete.Network.edge_count(), 2);
    let mut n0 = rete.find_neighbors(0);
    n0.sort();
    assert_eq!(n0, vec![1, 2]);
}

#[test]
fn find_synapse_finds_the_edge_between_two_nodes() {
    let rete = NeuralNetwork::new_from_arr(&[2, 2]).unwrap();
    let edges = edge_list(&rete);
    let e = rete.find_synapse(1, 3).unwrap();
    assert_eq!((edges[e].0, edges[e].1), (1, 3));
    assert_eq!(edges[e].2, false);
    assert_eq!(rete.find_synapse(2, 0), None);
    assert_eq!(rete.find_synapse(0, 0), None);
    assert_eq!(rete.find_synapse(7, 1), None);
}

#[test]
fn file_order_split_by_kind_matches_grouped_order() {
    let sizes = vec![2u32, 3, 1];
    let from_file = NeuralNetwork::new_from_sizes(&sizes).unwrap();
    let grouped = NeuralNetwork::new_from_arr(&[2, 3, 1]).unwrap();
    let file_edges = edge_list(&from_file);
    let same: Vec<(usize, usize)> = file_edges.iter().filter(|e| e.2).map(|e| (e.0, e.1)).collect();
    let next: Vec<(usize, usize)> = file_edges.iter().filter(|e| !e.2).map(|e| (e.0, e.1)).collect();
    let g = edge_list(&grouped);
    for e in &g {
        if e.2 {
            assert_eq!(same[e.3], (e.0, e.1));
        } else {
            assert_eq!(next[e.3], (e.0, e.1));
        }
    }
    assert_eq!(g.len(), same.len() + next.len());
}

#[test]
fn arr_layers_count_law_example() {
    let arr = [5u8, 1, 1, 5];
    let rete = NeuralNetwork::new_from_arr(&arr).unwrap();
    for (l, n) in arr.iter().enumerate() {
        assert_eq!(rete.get_layer(l + 1).len(), *n as usize);
    }
    let ids: Vec<u32> = rete.get_neuroni().iter().map(|k| k.Nid).collect();
    assert_eq!(ids, (0..12).collect::<Vec<u32>>());
}

#[test]
fn links_law_example() {
    let rete = NeuralNetwork::new_from_arr(&[3, 2, 2]).unwrap();
    let edges = edge_list(&rete);
    let nodes = rete.get_neuroni();
    for i in 0..nodes.len() {
        for j in 0..nodes.len() {
            let linked = nodes[i].Nid != nodes[j].Nid
                && (nodes[j].layer == nodes[i].layer || nodes[j].layer == nodes[i].layer + 1);
            let found: Vec<&(usize, usize, bool, usize)> =
                edges.iter().filter(|e| e.0 == i && e.1 == j).collect();
            assert_eq!(found.len(), if linked { 1 } else { 0 });
            if linked {
                assert_eq!(found[0].2, nodes[j].layer == nodes[i].layer);
            }
        }
    }
}

#[test]
fn impulse_new_keeps_value() {
    let imp = Impulse::new(1);
    assert_eq!(imp.val, 1);
    let later = Impulse::new(3);
    assert!(later.tempo >= imp.tempo);
}
