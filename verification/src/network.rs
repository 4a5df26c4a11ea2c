//! The topology of the network: its neurons, in layers, and the synapses that join
//! every neuron to the other neurons of its own layer and to those of the next one.
use vstd::prelude::*;
use petgraph::graph::Graph;
use crate::graph::{
    graph_add_edge, graph_add_node, graph_edges, graph_new, graph_node_weights, graph_nodes,
    graph_find_edge, graph_out_neighbors, out_targets,
};
use crate::impulse::Impulse;
use crate::cdl::layer_start;

verus! {

/// A neuron as the topology sees it: its identifier and its layer.
#[derive(Clone, Copy, Debug, PartialEq, Eq, Structural)]
pub struct NeuronKey {
    pub Nid: u32,
    pub layer: usize,
}

/// The weight of a node of the graph for a neuron.
pub open spec fn node_of(k: NeuronKey) -> (u32, usize) {
    (k.Nid, k.layer)
}

/// The neurons of a sequence of layers, layer after layer, as node weights.
pub open spec fn flat_nodes(layers: Seq<Seq<NeuronKey>>) -> Seq<(u32, usize)>
    decreases layers.len(),
{
    if layers.len() == 0 {
        Seq::empty()
    } else {
        flat_nodes(layers.drop_last()) + layers.last().map_values(|k: NeuronKey| node_of(k))
    }
}

/// The layers of a vector of layers, each as a sequence.
pub open spec fn layers_of(v: Seq<Vec<NeuronKey>>) -> Seq<Seq<NeuronKey>> {
    v.map_values(|l: Vec<NeuronKey>| l@)
}

/// Whether node `i` sends a synapse to node `j`, and of which kind: `Some(true)` when
/// they are distinct neurons of one layer, `Some(false)` when `j` is a neuron of the
/// layer after that of `i`, `None` when there is no synapse.
pub open spec fn pair_kind(nodes: Seq<(u32, usize)>, i: int, j: int) -> Option<bool> {
    if nodes[i].0 == nodes[j].0 {
        None
    } else if nodes[j].1 == nodes[i].1 {
        Some(true)
    } else if nodes[j].1 == nodes[i].1 + 1 {
        Some(false)
    } else {
        None
    }
}

/// Whether a synapse of kind `kind` is one that the selector `sel` asks for
/// (`None` asks for both kinds).
pub open spec fn selected(kind: Option<bool>, sel: Option<bool>) -> bool {
    kind is Some && (sel is None || sel == kind)
}

/// The selected synapses out of node `i` towards the nodes `j < k`, in order of `j`.
pub open spec fn plan_row(nodes: Seq<(u32, usize)>, sel: Option<bool>, i: int, k: int) -> Seq<
    (usize, usize, bool),
>
    decreases k,
{
    if k <= 0 {
        Seq::empty()
    } else {
        plan_row(nodes, sel, i, k - 1) + if selected(pair_kind(nodes, i, k - 1), sel) {
            seq![(i as usize, (k - 1) as usize, pair_kind(nodes, i, k - 1)->0)]
        } else {
            Seq::empty()
        }
    }
}

/// The selected synapses out of the nodes `i < k`, in order of source, then of target.
pub open spec fn plan_rows(nodes: Seq<(u32, usize)>, sel: Option<bool>, k: int) -> Seq<
    (usize, usize, bool),
>
    decreases k,
{
    if k <= 0 {
        Seq::empty()
    } else {
        plan_rows(nodes, sel, k - 1) + plan_row(nodes, sel, k - 1, nodes.len() as int)
    }
}

/// All the selected synapses, in order of source, then of target.
pub open spec fn plan(nodes: Seq<(u32, usize)>, sel: Option<bool>) -> Seq<(usize, usize, bool)> {
    plan_rows(nodes, sel, nodes.len() as int)
}

/// Synapses as graph edges, each weighted by its kind and its rank in `p`.
pub open spec fn ranked(p: Seq<(usize, usize, bool)>) -> Seq<(usize, usize, bool, usize)> {
    Seq::new(p.len(), |k: int| (p[k].0, p[k].1, p[k].2, k as usize))
}

/// The edges of a network built from its neurons: first the synapses within layers,
/// ranked among themselves, then the synapses to the next layer, ranked among themselves.
pub open spec fn grouped_edges(nodes: Seq<(u32, usize)>) -> Seq<(usize, usize, bool, usize)> {
    ranked(plan(nodes, Some(true))) + ranked(plan(nodes, Some(false)))
}

/// The edges of a network read from a model file: all synapses in scan order, each
/// ranked by its place in that order.
pub open spec fn scanned_edges(nodes: Seq<(u32, usize)>) -> Seq<(usize, usize, bool, usize)> {
    ranked(plan(nodes, None))
}

/// A neuron's layer can be followed by another one wherever there is another neuron.
pub open spec fn layers_bounded(nodes: Seq<(u32, usize)>) -> bool {
    forall|i: int, j: int|
        0 <= i < nodes.len() && 0 <= j < nodes.len() && nodes[i].0 != nodes[j].0
            ==> #[trigger] nodes[i].1 < usize::MAX && #[trigger] nodes[j].1 < usize::MAX
}

/// The identifiers of the nodes among the first `k` whose layer is `layer`, in node order.
pub open spec fn nids_in_layer(nodes: Seq<(u32, usize)>, layer: usize, k: int) -> Seq<u32>
    decreases k,
{
    if k <= 0 {
        Seq::empty()
    } else {
        nids_in_layer(nodes, layer, k - 1) + if nodes[k - 1].1 == layer {
            seq![nodes[k - 1].0]
        } else {
            Seq::empty()
        }
    }
}

/// The neurons of a network whose `l`-th layer (counted from 1) holds `sizes[l - 1]`
/// neurons, for the layers `l <= k`, as node weights: the identifiers count up from 0
/// in node order.
pub open spec fn layout(sizes: Seq<usize>, k: int) -> Seq<(u32, usize)>
    decreases k,
{
    if k <= 0 {
        Seq::empty()
    } else {
        layout(sizes, k - 1) + Seq::new(
            sizes[k - 1] as nat,
            |q: int| ((layer_start(sizes, k - 1) + q) as u32, k as usize),
        )
    }
}

/// Layer sizes given as bytes.
pub open spec fn byte_sizes(arr: Seq<u8>) -> Seq<usize> {
    arr.map_values(|b: u8| b as usize)
}

/// Layer sizes given as `u32`.
pub open spec fn word_sizes(sizes: Seq<u32>) -> Seq<usize> {
    sizes.map_values(|b: u32| b as usize)
}

/// The network's topology, the impulses it has emitted, and its number of layers.
pub struct NeuralNetwork {
    pub Network: Graph<(u32, usize), (bool, usize)>,
    pub out: Vec<Impulse>,
    pub levels: usize,
}

/// The selected synapses among `nodes`, in order of source, then of target.
fn collect_pairs(nodes: &Vec<(u32, usize)>, sel: Option<bool>) -> (p: Vec<(usize, usize, bool)>)
    requires
        layers_bounded(nodes@),
    ensures
        p@ == plan(nodes@, sel),
        forall|k: int| 0 <= k < p@.len() ==> #[trigger] p@[k].0 < nodes@.len() && p@[k].1 < nodes@.len(),
{
    let len = nodes.len();
    let mut p: Vec<(usize, usize, bool)> = Vec::new();
    let mut i: usize = 0;
    while i < len
        invariant
            len == nodes@.len(),
            layers_bounded(nodes@),
            i <= len,
            p@ == plan_rows(nodes@, sel, i as int),
            forall|k: int| 0 <= k < p@.len() ==> #[trigger] p@[k].0 < len && p@[k].1 < len,
        decreases len - i,
    {
        let mut j: usize = 0;
        while j < len
            invariant
                len == nodes@.len(),
                layers_bounded(nodes@),
                i < len,
                j <= len,
                p@ == plan_rows(nodes@, sel, i as int) + plan_row(nodes@, sel, i as int, j as int),
                forall|k: int| 0 <= k < p@.len() ==> #[trigger] p@[k].0 < len && p@[k].1 < len,
            decreases len - j,
        {
            let ghost before = p@;
            let (nid1, l1) = nodes[i];
            let (nid2, l2) = nodes[j];
            if nid1 != nid2 {
                assert(l1 < usize::MAX);
                let kind: Option<bool> = if l2 == l1 {
                    Some(true)
                } else if l2 == l1 + 1 {
                    Some(false)
                } else {
                    None
                };
                assert(kind == pair_kind(nodes@, i as int, j as int));
                if let Some(k) = kind {
                    let take = match sel {
                        None => true,
                        Some(s) => s == k,
                    };
                    if take {
                        p.push((i, j, k));
                    }
                }
            }
            assert(p@ =~= plan_rows(nodes@, sel, i as int) + plan_row(nodes@, sel, i as int, j + 1));
            j = j + 1;
        }
        i = i + 1;
    }
    p
}

/// A graph with one node per neuron of `Neurons`, layer after layer, and no edge;
/// also the node weights, in a vector.
fn build_nodes(Neurons: &Vec<Vec<NeuronKey>>) -> (res: (Graph<(u32, usize), (bool, usize)>, Vec<(u32, usize)>))
    requires
        flat_nodes(layers_of(Neurons@)).len() < u32::MAX,
    ensures
        graph_nodes(res.0) == flat_nodes(layers_of(Neurons@)),
        graph_edges(res.0) == Seq::<(usize, usize, bool, usize)>::empty(),
        res.1@ == flat_nodes(layers_of(Neurons@)),
{
    let ghost layers = layers_of(Neurons@);
    let mut g = graph_new();
    let mut keys: Vec<(u32, usize)> = Vec::new();
    let mut r: usize = 0;
    while r < Neurons.len()
        invariant
            layers == layers_of(Neurons@),
            r <= Neurons@.len(),
            flat_nodes(layers).len() < u32::MAX,
            keys@ == flat_nodes(layers.take(r as int)),
            graph_nodes(g) == keys@,
            graph_edges(g) == Seq::<(usize, usize, bool, usize)>::empty(),
        decreases Neurons@.len() - r,
    {
        let row = &Neurons[r];
        let mut c: usize = 0;
        while c < row.len()
            invariant
                layers == layers_of(Neurons@),
                r < Neurons@.len(),
                row@ == layers[r as int],
                c <= row@.len(),
                flat_nodes(layers).len() < u32::MAX,
                keys@ == flat_nodes(layers.take(r as int)) + row@.take(c as int).map_values(
                    |k: NeuronKey| node_of(k),
                ),
                graph_nodes(g) == keys@,
                graph_edges(g) == Seq::<(usize, usize, bool, usize)>::empty(),
            decreases row@.len() - c,
        {
            proof {
                lemma_flat_nodes_prefix_len(layers, r as int + 1);
                assert(layers.take(r as int + 1).drop_last() =~= layers.take(r as int));
            }
            let key = row[c];
            graph_add_node(&mut g, (key.Nid, key.layer));
            keys.push((key.Nid, key.layer));
            c = c + 1;
            assert(row@.take(c as int).map_values(|k: NeuronKey| node_of(k)) =~= row@.take(
                c - 1,
            ).map_values(|k: NeuronKey| node_of(k)).push(node_of(key)));
        }
        proof {
            assert(layers.take(r as int + 1).drop_last() =~= layers.take(r as int));
            assert(row@.take(c as int) =~= row@);
        }
        r = r + 1;
    }
    proof {
        assert(layers.take(r as int) =~= layers);
    }
    (g, keys)
}

/// Adds one edge per synapse of `pairs`, in order, each weighted by its kind and its
/// rank in `pairs`.
fn add_ranked_edges(g: &mut Graph<(u32, usize), (bool, usize)>, pairs: &Vec<(usize, usize, bool)>)
    requires
        forall|q: int|
            0 <= q < pairs@.len() ==> #[trigger] pairs@[q].0 < graph_nodes(*old(g)).len()
                && pairs@[q].1 < graph_nodes(*old(g)).len(),
        graph_edges(*old(g)).len() + pairs@.len() < u32::MAX,
    ensures
        graph_nodes(*final(g)) == graph_nodes(*old(g)),
        graph_edges(*final(g)) == graph_edges(*old(g)) + ranked(pairs@),
{
    let ghost nodes0 = graph_nodes(*g);
    let ghost edges0 = graph_edges(*g);
    let mut k: usize = 0;
    while k < pairs.len()
        invariant
            graph_nodes(*g) == nodes0,
            forall|q: int| 0 <= q < pairs@.len() ==> #[trigger] pairs@[q].0 < nodes0.len() && pairs@[q].1 < nodes0.len(),
            edges0.len() + pairs@.len() < u32::MAX,
            k <= pairs@.len(),
            graph_edges(*g) == edges0 + ranked(pairs@).take(k as int),
        decreases pairs@.len() - k,
    {
        let (a, b, kind) = pairs[k];
        graph_add_edge(g, a, b, (kind, k));
        k = k + 1;
        assert(graph_edges(*g) =~= edges0 + ranked(pairs@).take(k as int));
    }
    assert(ranked(pairs@).take(pairs@.len() as int) =~= ranked(pairs@));
}


/// The neurons of a network with the given layer sizes, numbered from 0 in order,
/// the layers numbered from 1.
fn layout_layers(sizes: &Vec<usize>) -> (Neurons: Vec<Vec<NeuronKey>>)
    requires
        layer_start(sizes@, sizes@.len() as int) < u32::MAX,
        sizes@.len() < usize::MAX,
    ensures
        flat_nodes(layers_of(Neurons@)) == layout(sizes@, sizes@.len() as int),
        Neurons@.len() == sizes@.len(),
{
    let mut Neurons: Vec<Vec<NeuronKey>> = Vec::new();
    let mut nid: u32 = 0;
    let mut l: usize = 0;
    while l < sizes.len()
        invariant
            layer_start(sizes@, sizes@.len() as int) < u32::MAX,
            sizes@.len() < usize::MAX,
            l <= sizes@.len(),
            Neurons@.len() == l,
            flat_nodes(layers_of(Neurons@)) == layout(sizes@, l as int),
            nid == layer_start(sizes@, l as int),
        decreases sizes@.len() - l,
    {
        proof {
            crate::cdl::lemma_layer_start_mono(sizes@, l as int + 1, sizes@.len() as int);
        }
        let ghost start = nid as int;
        let mut row: Vec<NeuronKey> = Vec::new();
        let mut c: usize = 0;
        while c < sizes[l]
            invariant
                l < sizes@.len(),
                sizes@.len() < usize::MAX,
                c <= sizes@[l as int],
                start + sizes@[l as int] < u32::MAX,
                nid == start + c,
                row@.len() == c,
                forall|q: int|
                    0 <= q < c ==> #[trigger] row@[q] == (NeuronKey { Nid: (start + q) as u32, layer: (l + 1) as usize }),
            decreases sizes@[l as int] - c,
        {
            row.push(NeuronKey { Nid: nid, layer: l + 1 });
            nid = nid + 1;
            c = c + 1;
        }
        let ghost prev = Neurons@;
        Neurons.push(row);
        proof {
            assert(layers_of(Neurons@).drop_last() =~= layers_of(prev));
            assert(row@.map_values(|k: NeuronKey| node_of(k)) =~= Seq::new(
                sizes@[l as int] as nat,
                |q: int| ((layer_start(sizes@, l as int) + q) as u32, (l + 1) as usize),
            ));
        }
        l = l + 1;
    }
    Neurons
}

/// Every neuron laid out for the first `k` layers is in a layer from 1 to `k`, and there
/// are as many of them as the sizes of those layers add up to.
pub proof fn lemma_layout_shape(sizes: Seq<usize>, k: int)
    requires
        0 <= k <= sizes.len(),
        k <= usize::MAX,
    ensures
        layout(sizes, k).len() == layer_start(sizes, k),
        forall|i: int| 0 <= i < layout(sizes, k).len() ==> 1 <= #[trigger] layout(sizes, k)[i].1 <= k,
    decreases k,
{
    if k > 0 {
        lemma_layout_shape(sizes, k - 1);
        let prev = layout(sizes, k - 1);
        let cur = layout(sizes, k);
        assert forall|i: int| 0 <= i < cur.len() implies 1 <= #[trigger] cur[i].1 <= k by {
            if i >= prev.len() {
                assert(cur[i].1 == k as usize);
            } else {
                assert(cur[i] == prev[i]);
            }
        }
    }
}

/// Whether the layers of `Neurons` hold fewer neurons than the largest `u32`.
fn fits_nodes(Neurons: &Vec<Vec<NeuronKey>>) -> (fits: bool)
    ensures
        fits == (flat_nodes(layers_of(Neurons@)).len() < u32::MAX),
{
    let ghost layers = layers_of(Neurons@);
    let mut acc: usize = 0;
    let mut r: usize = 0;
    while r < Neurons.len()
        invariant
            layers == layers_of(Neurons@),
            r <= Neurons@.len(),
            acc == flat_nodes(layers.take(r as int)).len(),
            acc < u32::MAX,
        decreases Neurons@.len() - r,
    {
        proof {
            assert(layers.take(r as int + 1).drop_last() =~= layers.take(r as int));
        }
        let row_len = Neurons[r].len();
        if row_len >= 4294967295 - acc {
            proof {
                lemma_flat_nodes_prefix_len(layers, r as int + 1);
            }
            return false;
        }
        acc = acc + row_len;
        r = r + 1;
    }
    proof {
        assert(layers.take(r as int) =~= layers);
    }
    true
}

/// Whether the given layer sizes add up to less than the largest `u32`.
fn total_fits(sizes: &Vec<usize>) -> (fits: bool)
    ensures
        fits == (layer_start(sizes@, sizes@.len() as int) < u32::MAX),
{
    let mut acc: usize = 0;
    let mut i: usize = 0;
    while i < sizes.len()
        invariant
            i <= sizes@.len(),
            acc == layer_start(sizes@, i as int),
            acc < u32::MAX,
        decreases sizes@.len() - i,
    {
        if sizes[i] >= 4294967295 - acc {
            proof {
                crate::cdl::lemma_layer_start_mono(sizes@, i as int + 1, sizes@.len() as int);
            }
            return false;
        }
        acc = acc + sizes[i];
        i = i + 1;
    }
    true
}

/// Whether `v` holds `t`.
fn has_index(v: &Vec<usize>, t: usize) -> (found: bool)
    ensures
        found == v@.contains(t),
{
    let mut i: usize = 0;
    while i < v.len()
        invariant
            i <= v@.len(),
            forall|q: int| 0 <= q < i ==> v@[q] != t,
        decreases v@.len() - i,
    {
        if v[i] == t {
            assert(v@[i as int] == t);
            return true;
        }
        i = i + 1;
    }
    false
}

impl NeuralNetwork {
    /// Builds the network of the given neurons: one node per neuron, layer after layer,
    /// then a synapse from every neuron to every other neuron of its layer and to every
    /// neuron of the next layer, the former first. A synapse within a layer is weighted
    /// `(true, k)` when it is the `k`-th of them, one to the next layer `(false, k)`.
    /// `None` when the nodes or the synapses would be too many for the graph's `u32`
    /// indices.
    pub fn new(Neurons: Vec<Vec<NeuronKey>>) -> (net: Option<NeuralNetwork>)
        requires
            layers_bounded(flat_nodes(layers_of(Neurons@))),
        ensures
            net is None <==> (flat_nodes(layers_of(Neurons@)).len() >= u32::MAX || grouped_edges(
                flat_nodes(layers_of(Neurons@)),
            ).len() >= u32::MAX),
            net matches Some(net) ==> {
                &&& graph_nodes(net.Network) == flat_nodes(layers_of(Neurons@))
                &&& graph_edges(net.Network) == grouped_edges(flat_nodes(layers_of(Neurons@)))
                &&& net.out@.len() == 0
                &&& net.levels == Neurons@.len()
            },
    {
        if !fits_nodes(&Neurons) {
            return None;
        }
        let (mut g, keys) = build_nodes(&Neurons);
        let same = collect_pairs(&keys, Some(true));
        let next = collect_pairs(&keys, Some(false));
        if same.len() >= 4294967295 || next.len() >= 4294967295 - same.len() {
            return None;
        }
        add_ranked_edges(&mut g, &same);
        add_ranked_edges(&mut g, &next);
        assert(Seq::<(usize, usize, bool, usize)>::empty() + ranked(same@) =~= ranked(same@));
        Some(NeuralNetwork { Network: g, out: Vec::new(), levels: Neurons.len() })
    }

    /// Builds the network whose `l`-th layer (counted from 1) holds `arr[l - 1]`
    /// neurons, numbered from 0 in order, joined as by [`NeuralNetwork::new`]; `None`
    /// when the nodes or the synapses would be too many for the graph's `u32` indices.
    pub fn new_from_arr(arr: &[u8]) -> (net: Option<NeuralNetwork>)
        requires
            arr@.len() < usize::MAX,
        ensures
            net is None <==> (layer_start(byte_sizes(arr@), arr@.len() as int) >= u32::MAX || grouped_edges(
                layout(byte_sizes(arr@), arr@.len() as int),
            ).len() >= u32::MAX),
            net matches Some(net) ==> {
                &&& graph_nodes(net.Network) == layout(byte_sizes(arr@), arr@.len() as int)
                &&& graph_edges(net.Network) == grouped_edges(layout(byte_sizes(arr@), arr@.len() as int))
                &&& net.out@.len() == 0
                &&& net.levels == arr@.len()
            },
    {
        let mut sizes: Vec<usize> = Vec::new();
        let mut i: usize = 0;
        while i < arr.len()
            invariant
                i <= arr@.len(),
                sizes@ == byte_sizes(arr@).take(i as int),
            decreases arr@.len() - i,
        {
            sizes.push(arr[i] as usize);
            i = i + 1;
            assert(sizes@ =~= byte_sizes(arr@).take(i as int));
        }
        assert(sizes@ =~= byte_sizes(arr@));
        if !total_fits(&sizes) {
            return None;
        }
        let Neurons = layout_layers(&sizes);
        proof {
            lemma_layout_shape(sizes@, sizes@.len() as int);
        }
        NeuralNetwork::new(Neurons)
    }

    /// Builds the network whose `l`-th layer (counted from 1) holds
    /// `nodes_per_layer[l - 1]` neurons, numbered from 0 in order, with the synapses of
    /// [`NeuralNetwork::new`] in the order in which a model file lists their weights:
    /// by source, then by target. A synapse is weighted by its kind and by its rank in
    /// that order, the place of its weight among the weights of the file. `None` when
    /// the nodes or the synapses would be too many for the graph's `u32` indices.
    pub fn new_from_sizes(nodes_per_layer: &Vec<u32>) -> (net: Option<NeuralNetwork>)
        requires
            nodes_per_layer@.len() < usize::MAX,
        ensures
            net is None <==> (layer_start(word_sizes(nodes_per_layer@), nodes_per_layer@.len() as int)
                >= u32::MAX || scanned_edges(
                layout(word_sizes(nodes_per_layer@), nodes_per_layer@.len() as int),
            ).len() >= u32::MAX),
            net matches Some(net) ==> {
                &&& graph_nodes(net.Network) == layout(word_sizes(nodes_per_layer@), nodes_per_layer@.len() as int)
                &&& graph_edges(net.Network) == scanned_edges(
                    layout(word_sizes(nodes_per_layer@), nodes_per_layer@.len() as int),
                )
                &&& net.out@.len() == 0
                &&& net.levels == nodes_per_layer@.len()
            },
    {
        let mut sizes: Vec<usize> = Vec::new();
        let mut i: usize = 0;
        while i < nodes_per_layer.len()
            invariant
                i <= nodes_per_layer@.len(),
                sizes@ == word_sizes(nodes_per_layer@).take(i as int),
            decreases nodes_per_layer@.len() - i,
        {
            sizes.push(nodes_per_layer[i] as usize);
            i = i + 1;
            assert(sizes@ =~= word_sizes(nodes_per_layer@).take(i as int));
        }
        assert(sizes@ =~= word_sizes(nodes_per_layer@));
        if !total_fits(&sizes) {
            return None;
        }
        let Neurons = layout_layers(&sizes);
        proof {
            lemma_layout_shape(sizes@, sizes@.len() as int);
        }
        let (mut g, keys) = build_nodes(&Neurons);
        let pairs = collect_pairs(&keys, None);
        if pairs.len() >= 4294967295 {
            return None;
        }
        add_ranked_edges(&mut g, &pairs);
        assert(Seq::<(usize, usize, bool, usize)>::empty() + ranked(pairs@) =~= ranked(pairs@));
        Some(NeuralNetwork { Network: g, out: Vec::new(), levels: nodes_per_layer.len() })
    }

    /// The neurons of the network, in node order.
    pub fn get_neuroni(&self) -> (ns: Vec<NeuronKey>)
        ensures
            ns@.map_values(|k: NeuronKey| node_of(k)) == graph_nodes(self.Network),
    {
        let ws = graph_node_weights(&self.Network);
        let mut ns: Vec<NeuronKey> = Vec::new();
        let mut i: usize = 0;
        while i < ws.len()
            invariant
                i <= ws@.len(),
                ns@.len() == i,
                forall|q: int| 0 <= q < i ==> node_of(#[trigger] ns@[q]) == ws@[q],
            decreases ws@.len() - i,
        {
            let (nid, layer) = ws[i];
            ns.push(NeuronKey { Nid: nid, layer });
            i = i + 1;
        }
        assert(ns@.map_values(|k: NeuronKey| node_of(k)) =~= ws@);
        ns
    }

    /// The identifiers of the neurons of layer `layer`, in node order.
    pub fn get_layer(&self, layer: usize) -> (nids: Vec<u32>)
        ensures
            nids@ == nids_in_layer(graph_nodes(self.Network), layer, graph_nodes(self.Network).len() as int),
    {
        let ws = graph_node_weights(&self.Network);
        let mut vett: Vec<u32> = Vec::new();
        let mut i: usize = 0;
        while i < ws.len()
            invariant
                i <= ws@.len(),
                vett@ == nids_in_layer(ws@, layer, i as int),
            decreases ws@.len() - i,
        {
            let (nid, l) = ws[i];
            if l == layer {
                vett.push(nid);
            }
            i = i + 1;
            assert(vett@ =~= nids_in_layer(ws@, layer, i as int));
        }
        vett
    }

    /// The edge index of a synapse from node `a` to node `b`, when there is one.
    pub fn find_synapse(&self, a: u32, b: u32) -> (e: Option<usize>)
        ensures
            e is None <==> !(exists|k: int|
                0 <= k < graph_edges(self.Network).len() && #[trigger] graph_edges(self.Network)[k].0 == a
                    && graph_edges(self.Network)[k].1 == b),
            e matches Some(k) ==> k < graph_edges(self.Network).len() && graph_edges(self.Network)[k as int].0 == a
                && graph_edges(self.Network)[k as int].1 == b,
    {
        graph_find_edge(&self.Network, a, b)
    }

    /// The nodes that node `nid` sends synapses to, each listed once, by node index.
    pub fn find_neighbors(&self, nid: u32) -> (ns: Vec<usize>)
        ensures
            forall|x: int, y: int| 0 <= x < y < ns@.len() ==> ns@[x] != ns@[y],
            forall|t: usize|
                #![trigger ns@.contains(t)]
                ns@.contains(t) <==> out_targets(
                    graph_edges(self.Network),
                    nid as int,
                    graph_edges(self.Network).len() as int,
                ).contains(t),
            forall|i: int| 0 <= i < ns@.len() ==> #[trigger] ns@[i] < graph_nodes(self.Network).len(),
    {
        let ghost edges = graph_edges(self.Network);
        let ghost outs = out_targets(edges, nid as int, edges.len() as int);
        let targets = graph_out_neighbors(&self.Network, nid);
        proof {
            targets@.to_multiset_ensures();
            outs.to_multiset_ensures();
        }
        let mut vettoreNodi: Vec<usize> = Vec::new();
        let mut i: usize = 0;
        while i < targets.len()
            invariant
                i <= targets@.len(),
                forall|q: int| 0 <= q < targets@.len() ==> #[trigger] targets@[q] < graph_nodes(self.Network).len(),
                forall|x: int, y: int| 0 <= x < y < vettoreNodi@.len() ==> vettoreNodi@[x] != vettoreNodi@[y],
                forall|q: int| 0 <= q < vettoreNodi@.len() ==> #[trigger] vettoreNodi@[q] < graph_nodes(self.Network).len(),
                forall|t: usize|
                    #![trigger vettoreNodi@.contains(t)]
                    vettoreNodi@.contains(t) <==> targets@.take(i as int).contains(t),
            decreases targets@.len() - i,
        {
            let t = targets[i];
            let ghost prev = vettoreNodi@;
            let found = has_index(&vettoreNodi, t);
            if !found {
                vettoreNodi.push(t);
            }
            proof {
                let tk = targets@.take(i as int);
                let tk1 = targets@.take(i + 1);
                assert(tk1 =~= tk.push(t));
                assert forall|u: usize| #[trigger] vettoreNodi@.contains(u) <==> tk1.contains(u) by {
                    if tk1.contains(u) {
                        let z = choose|z: int| 0 <= z < tk1.len() && tk1[z] == u;
                        if z < tk.len() {
                            assert(tk[z] == u);
                        }
                    }
                    if tk.contains(u) {
                        let z = choose|z: int| 0 <= z < tk.len() && tk[z] == u;
                        assert(tk1[z] == u);
                    }
                    if u == t {
                        assert(tk1[i as int] == u);
                        if found {
                            let z = choose|z: int| 0 <= z < prev.len() && prev[z] == u;
                            assert(vettoreNodi@[z] == u);
                        } else {
                            assert(vettoreNodi@[prev.len() as int] == u);
                        }
                    } else {
                        if vettoreNodi@.contains(u) {
                            let z = choose|z: int| 0 <= z < vettoreNodi@.len() && vettoreNodi@[z] == u;
                            assert(prev[z] == u);
                        }
                        if prev.contains(u) {
                            let z = choose|z: int| 0 <= z < prev.len() && prev[z] == u;
                            assert(vettoreNodi@[z] == u);
                        }
                    }
                }
                assert forall|x: int, y2: int| 0 <= x < y2 < vettoreNodi@.len() implies vettoreNodi@[x] != vettoreNodi@[y2] by {
                    if !found && y2 == prev.len() {
                        assert(prev[x] == vettoreNodi@[x]);
                        assert(prev.contains(vettoreNodi@[x]));
                    }
                }
            }
            i = i + 1;
        }
        proof {
            assert(targets@.take(i as int) =~= targets@);
            assert forall|t: usize| #[trigger] vettoreNodi@.contains(t) <==> outs.contains(t) by {
                assert(targets@.contains(t) <==> targets@.to_multiset().count(t) > 0);
                assert(outs.contains(t) <==> outs.to_multiset().count(t) > 0);
            }
        }
        vettoreNodi
    }
}

/// The nodes of the first layers are no more than the nodes of all of them.
pub proof fn lemma_flat_nodes_prefix_len(layers: Seq<Seq<NeuronKey>>, r: int)
    requires
        0 <= r <= layers.len(),
    ensures
        flat_nodes(layers.take(r)).len() <= flat_nodes(layers).len(),
    decreases layers.len() - r,
{
    if r < layers.len() {
        lemma_flat_nodes_prefix_len(layers, r + 1);
        assert(layers.take(r + 1).drop_last() =~= layers.take(r));
    } else {
        assert(layers.take(r) =~= layers);
    }
}

} // verus!

verus! {

/// The synapses out of node `i` towards the nodes before `k`: each comes out of `i`,
/// goes to a node before `k` that it is selected for, carries the kind of that pair,
/// and they come in increasing order of target; every selected target is there.
pub proof fn lemma_plan_row(nodes: Seq<(u32, usize)>, sel: Option<bool>, i: int, k: int)
    requires
        0 <= i < nodes.len(),
        0 <= k <= nodes.len(),
        nodes.len() <= usize::MAX,
    ensures
        ({
            let row = plan_row(nodes, sel, i, k);
            &&& forall|q: int|
                0 <= q < row.len() ==> {
                    &&& (#[trigger] row[q]).0 == i
                    &&& row[q].1 < k
                    &&& selected(pair_kind(nodes, i, row[q].1 as int), sel)
                    &&& row[q].2 == pair_kind(nodes, i, row[q].1 as int)->0
                }
            &&& forall|q1: int, q2: int| 0 <= q1 < q2 < row.len() ==> #[trigger] row[q1].1 < #[trigger] row[q2].1
            &&& forall|j: int|
                0 <= j < k && #[trigger] selected(pair_kind(nodes, i, j), sel) ==> exists|q: int|
                    0 <= q < row.len() && #[trigger] row[q].1 == j
        }),
    decreases k,
{
    if k > 0 {
        lemma_plan_row(nodes, sel, i, k - 1);
        let prev = plan_row(nodes, sel, i, k - 1);
        let row = plan_row(nodes, sel, i, k);
        assert forall|j: int|
            0 <= j < k && #[trigger] selected(pair_kind(nodes, i, j), sel) implies exists|q: int|
                0 <= q < row.len() && #[trigger] row[q].1 == j by {
            if j < k - 1 {
                let q = choose|q: int| 0 <= q < prev.len() && #[trigger] prev[q].1 == j;
                assert(row[q] == prev[q]);
            } else {
                assert(row[prev.len() as int].1 == j);
            }
        }
        assert forall|q: int| 0 <= q < row.len() implies {
            &&& (#[trigger] row[q]).0 == i
            &&& row[q].1 < k
            &&& selected(pair_kind(nodes, i, row[q].1 as int), sel)
            &&& row[q].2 == pair_kind(nodes, i, row[q].1 as int)->0
        } by {
            if q < prev.len() {
                assert(row[q] == prev[q]);
            }
        }
        assert forall|q1: int, q2: int| 0 <= q1 < q2 < row.len() implies #[trigger] row[q1].1 < #[trigger] row[q2].1 by {
            assert(row[q1] == prev[q1]);
            if q2 < prev.len() {
                assert(row[q2] == prev[q2]);
            }
        }
    }
}

/// The synapses out of the nodes before `m`: each is selected, carries the kind of its
/// pair, and they come in increasing order of source, then of target; every selected
/// pair with a source before `m` is there.
pub proof fn lemma_plan_rows(nodes: Seq<(u32, usize)>, sel: Option<bool>, m: int)
    requires
        0 <= m <= nodes.len(),
        nodes.len() <= usize::MAX,
    ensures
        ({
            let p = plan_rows(nodes, sel, m);
            &&& forall|q: int|
                0 <= q < p.len() ==> {
                    &&& (#[trigger] p[q]).0 < m
                    &&& p[q].1 < nodes.len()
                    &&& selected(pair_kind(nodes, p[q].0 as int, p[q].1 as int), sel)
                    &&& p[q].2 == pair_kind(nodes, p[q].0 as int, p[q].1 as int)->0
                }
            &&& forall|q1: int, q2: int|
                0 <= q1 < q2 < p.len() ==> (#[trigger] p[q1]).0 < (#[trigger] p[q2]).0 || (p[q1].0 == p[q2].0
                    && p[q1].1 < p[q2].1)
            &&& forall|i: int, j: int|
                0 <= i < m && 0 <= j < nodes.len() && #[trigger] selected(pair_kind(nodes, i, j), sel)
                    ==> exists|q: int| 0 <= q < p.len() && #[trigger] p[q] == (i as usize, j as usize, pair_kind(nodes, i, j)->0)
        }),
    decreases m,
{
    if m > 0 {
        lemma_plan_rows(nodes, sel, m - 1);
        lemma_plan_row(nodes, sel, m - 1, nodes.len() as int);
        let prev = plan_rows(nodes, sel, m - 1);
        let row = plan_row(nodes, sel, m - 1, nodes.len() as int);
        let p = plan_rows(nodes, sel, m);
        assert(p == prev + row);
        assert forall|q: int| 0 <= q < p.len() implies {
            &&& (#[trigger] p[q]).0 < m
            &&& p[q].1 < nodes.len()
            &&& selected(pair_kind(nodes, p[q].0 as int, p[q].1 as int), sel)
            &&& p[q].2 == pair_kind(nodes, p[q].0 as int, p[q].1 as int)->0
        } by {
            if q < prev.len() {
                assert(p[q] == prev[q]);
            } else {
                assert(p[q] == row[q - prev.len()]);
            }
        }
        assert forall|q1: int, q2: int| 0 <= q1 < q2 < p.len() implies (#[trigger] p[q1]).0 < (
        #[trigger] p[q2]).0 || (p[q1].0 == p[q2].0 && p[q1].1 < p[q2].1) by {
            if q2 < prev.len() {
                assert(p[q1] == prev[q1]);
                assert(p[q2] == prev[q2]);
            } else if q1 < prev.len() {
                assert(p[q1] == prev[q1]);
                assert(p[q2] == row[q2 - prev.len()]);
            } else {
                assert(p[q1] == row[q1 - prev.len()]);
                assert(p[q2] == row[q2 - prev.len()]);
            }
        }
        assert forall|i: int, j: int|
            0 <= i < m && 0 <= j < nodes.len() && #[trigger] selected(pair_kind(nodes, i, j), sel) implies exists|q: int|
                0 <= q < p.len() && #[trigger] p[q] == (i as usize, j as usize, pair_kind(nodes, i, j)->0) by {
            if i < m - 1 {
                let q = choose|q: int| 0 <= q < prev.len() && #[trigger] prev[q] == (i as usize, j as usize, pair_kind(nodes, i, j)->0);
                assert(p[q] == prev[q]);
            } else {
                let q = choose|q: int| 0 <= q < row.len() && #[trigger] row[q].1 == j;
                assert(p[prev.len() + q] == row[q]);
            }
        }
    }
}

/// Every selected pair of nodes is joined by exactly one planned synapse, of the
/// pair's kind, and no other pair is.
pub proof fn lemma_plan_links(nodes: Seq<(u32, usize)>, sel: Option<bool>, i: int, j: int)
    requires
        0 <= i < nodes.len(),
        0 <= j < nodes.len(),
        nodes.len() <= usize::MAX,
    ensures
        (exists|q: int|
            0 <= q < plan(nodes, sel).len() && #[trigger] plan(nodes, sel)[q].0 == i && plan(nodes, sel)[q].1 == j)
            <==> selected(pair_kind(nodes, i, j), sel),
        forall|q: int|
            0 <= q < plan(nodes, sel).len() && #[trigger] plan(nodes, sel)[q].0 == i && plan(nodes, sel)[q].1 == j
                ==> plan(nodes, sel)[q].2 == pair_kind(nodes, i, j)->0,
        forall|q1: int, q2: int|
            0 <= q1 < plan(nodes, sel).len() && 0 <= q2 < plan(nodes, sel).len() && (#[trigger] plan(nodes, sel)[q1]).0
                == (#[trigger] plan(nodes, sel)[q2]).0 && plan(nodes, sel)[q1].1 == plan(nodes, sel)[q2].1 ==> q1 == q2,
{
    lemma_plan_rows(nodes, sel, nodes.len() as int);
    let p = plan(nodes, sel);
    if selected(pair_kind(nodes, i, j), sel) {
        let q = choose|q: int| 0 <= q < p.len() && #[trigger] p[q] == (i as usize, j as usize, pair_kind(nodes, i, j)->0);
        assert(p[q].0 == i && p[q].1 == j);
    }
    assert forall|q1: int, q2: int|
        0 <= q1 < p.len() && 0 <= q2 < p.len() && (#[trigger] p[q1]).0 == (#[trigger] p[q2]).0 && p[q1].1 == p[q2].1
        implies q1 == q2 by {
        if q1 < q2 {
            assert(p[q1].0 < p[q2].0 || (p[q1].0 == p[q2].0 && p[q1].1 < p[q2].1));
        } else if q2 < q1 {
            assert(p[q2].0 < p[q1].0 || (p[q2].0 == p[q1].0 && p[q2].1 < p[q1].1));
        }
    }
}

} // verus!

verus! {

/// The targets of the edges out of `a` among the first `k` are the targets of the
/// edges among them whose source is `a`.
pub proof fn lemma_out_targets(edges: Seq<(usize, usize, bool, usize)>, a: int, k: int, t: usize)
    requires
        0 <= k <= edges.len(),
    ensures
        out_targets(edges, a, k).contains(t) <==> exists|e: int|
            0 <= e < k && #[trigger] edges[e].0 == a && edges[e].1 == t,
    decreases k,
{
    if k > 0 {
        lemma_out_targets(edges, a, k - 1, t);
        let prev = out_targets(edges, a, k - 1);
        let cur = out_targets(edges, a, k);
        if prev.contains(t) {
            let z = choose|z: int| 0 <= z < prev.len() && prev[z] == t;
            assert(cur[z] == t);
        }
        if cur.contains(t) {
            let z = choose|z: int| 0 <= z < cur.len() && cur[z] == t;
            if z < prev.len() {
                assert(prev[z] == t);
            } else {
                assert(edges[k - 1].0 == a && edges[k - 1].1 == t);
            }
        }
        if exists|e: int| 0 <= e < k && #[trigger] edges[e].0 == a && edges[e].1 == t {
            let e = choose|e: int| 0 <= e < k && #[trigger] edges[e].0 == a && edges[e].1 == t;
            if e == k - 1 {
                assert(cur[prev.len() as int] == t);
            }
        }
    }
}

/// Law of the synapses of a network built by [`NeuralNetwork::new`]: neuron `i` sends
/// a synapse to neuron `j` exactly when they are distinct neurons of one layer, or `j`
/// is in the layer after that of `i`; then it sends exactly one, and its weight says
/// whether it stays within the layer.
pub proof fn law_new_links(nodes: Seq<(u32, usize)>, i: int, j: int)
    requires
        0 <= i < nodes.len(),
        0 <= j < nodes.len(),
        nodes.len() <= usize::MAX,
    ensures
        (exists|e: int|
            0 <= e < grouped_edges(nodes).len() && #[trigger] grouped_edges(nodes)[e].0 == i && grouped_edges(nodes)[e].1
                == j) <==> pair_kind(nodes, i, j) is Some,
        forall|e: int|
            0 <= e < grouped_edges(nodes).len() && #[trigger] grouped_edges(nodes)[e].0 == i && grouped_edges(nodes)[e].1
                == j ==> Some(grouped_edges(nodes)[e].2) == pair_kind(nodes, i, j),
        forall|e1: int, e2: int|
            0 <= e1 < grouped_edges(nodes).len() && 0 <= e2 < grouped_edges(nodes).len() && (
            #[trigger] grouped_edges(nodes)[e1]).0 == i && grouped_edges(nodes)[e1].1 == j && (
            #[trigger] grouped_edges(nodes)[e2]).0 == i && grouped_edges(nodes)[e2].1 == j ==> e1 == e2,
{
    let ps = plan(nodes, Some(true));
    let pn = plan(nodes, Some(false));
    let edges = grouped_edges(nodes);
    lemma_plan_links(nodes, Some(true), i, j);
    lemma_plan_links(nodes, Some(false), i, j);
    lemma_plan_rows(nodes, Some(true), nodes.len() as int);
    lemma_plan_rows(nodes, Some(false), nodes.len() as int);
    assert forall|e: int| 0 <= e < edges.len() implies #[trigger] edges[e] == (if e < ps.len() {
        (ps[e].0, ps[e].1, ps[e].2, e as usize)
    } else {
        (pn[e - ps.len()].0, pn[e - ps.len()].1, pn[e - ps.len()].2, (e - ps.len()) as usize)
    }) by {}
    if pair_kind(nodes, i, j) is Some {
        if pair_kind(nodes, i, j) == Some(true) {
            let q = choose|q: int| 0 <= q < ps.len() && #[trigger] ps[q].0 == i && ps[q].1 == j;
            assert(edges[q].0 == i && edges[q].1 == j);
        } else {
            let q = choose|q: int| 0 <= q < pn.len() && #[trigger] pn[q].0 == i && pn[q].1 == j;
            assert(edges[ps.len() + q].0 == i && edges[ps.len() + q].1 == j);
        }
    }
    if exists|e: int| 0 <= e < edges.len() && #[trigger] edges[e].0 == i && edges[e].1 == j {
        let e = choose|e: int| 0 <= e < edges.len() && #[trigger] edges[e].0 == i && edges[e].1 == j;
        if e < ps.len() {
            assert(ps[e].0 == i && ps[e].1 == j);
        } else {
            assert(pn[e - ps.len()].0 == i && pn[e - ps.len()].1 == j);
        }
    }
    assert forall|e: int|
        0 <= e < edges.len() && #[trigger] edges[e].0 == i && edges[e].1 == j implies Some(edges[e].2) == pair_kind(
        nodes,
        i,
        j,
    ) by {
        if e < ps.len() {
            assert(ps[e].0 == i && ps[e].1 == j);
        } else {
            assert(pn[e - ps.len()].0 == i && pn[e - ps.len()].1 == j);
        }
    }
    assert forall|e1: int, e2: int|
        0 <= e1 < edges.len() && 0 <= e2 < edges.len() && (#[trigger] edges[e1]).0 == i && edges[e1].1 == j && (
        #[trigger] edges[e2]).0 == i && edges[e2].1 == j implies e1 == e2 by {
        if e1 < ps.len() && e2 < ps.len() {
            assert(ps[e1].0 == ps[e2].0 && ps[e1].1 == ps[e2].1);
        } else if e1 >= ps.len() && e2 >= ps.len() {
            assert(pn[e1 - ps.len()].0 == pn[e2 - ps.len()].0 && pn[e1 - ps.len()].1 == pn[e2 - ps.len()].1);
        } else if e1 < ps.len() {
            assert(ps[e1].0 == i && ps[e1].1 == j);
            assert(pn[e2 - ps.len()].0 == i && pn[e2 - ps.len()].1 == j);
        } else {
            assert(ps[e2].0 == i && ps[e2].1 == j);
            assert(pn[e1 - ps.len()].0 == i && pn[e1 - ps.len()].1 == j);
        }
    }
}

/// Law of the synapses of a network read from a model file by
/// [`NeuralNetwork::new_from_sizes`]: the same synapses as [`law_new_links`] states,
/// each once, weighted by its kind.
pub proof fn law_file_links(nodes: Seq<(u32, usize)>, i: int, j: int)
    requires
        0 <= i < nodes.len(),
        0 <= j < nodes.len(),
        nodes.len() <= usize::MAX,
    ensures
        (exists|e: int|
            0 <= e < scanned_edges(nodes).len() && #[trigger] scanned_edges(nodes)[e].0 == i && scanned_edges(nodes)[e].1
                == j) <==> pair_kind(nodes, i, j) is Some,
        forall|e: int|
            0 <= e < scanned_edges(nodes).len() && #[trigger] scanned_edges(nodes)[e].0 == i && scanned_edges(nodes)[e].1
                == j ==> Some(scanned_edges(nodes)[e].2) == pair_kind(nodes, i, j),
        forall|e1: int, e2: int|
            0 <= e1 < scanned_edges(nodes).len() && 0 <= e2 < scanned_edges(nodes).len() && (
            #[trigger] scanned_edges(nodes)[e1]).0 == i && scanned_edges(nodes)[e1].1 == j && (
            #[trigger] scanned_edges(nodes)[e2]).0 == i && scanned_edges(nodes)[e2].1 == j ==> e1 == e2,
{
    let p = plan(nodes, None);
    let edges = scanned_edges(nodes);
    lemma_plan_links(nodes, None, i, j);
    assert forall|e: int| 0 <= e < edges.len() implies #[trigger] edges[e] == (p[e].0, p[e].1, p[e].2, e as usize) by {}
    if pair_kind(nodes, i, j) is Some {
        let q = choose|q: int| 0 <= q < p.len() && #[trigger] p[q].0 == i && p[q].1 == j;
        assert(edges[q].0 == i && edges[q].1 == j);
    }
    assert forall|e: int|
        0 <= e < edges.len() && #[trigger] edges[e].0 == i && edges[e].1 == j implies Some(edges[e].2) == pair_kind(
        nodes,
        i,
        j,
    ) by {
        assert(p[e].0 == i && p[e].1 == j);
    }
    assert forall|e1: int, e2: int|
        0 <= e1 < edges.len() && 0 <= e2 < edges.len() && (#[trigger] edges[e1]).0 == i && edges[e1].1 == j && (
        #[trigger] edges[e2]).0 == i && edges[e2].1 == j implies e1 == e2 by {
        assert(p[e1].0 == p[e2].0 && p[e1].1 == p[e2].1);
    }
}

/// Law of the neighbours of a neuron in a network built by [`NeuralNetwork::new`]:
/// the nodes that node `a` sends synapses to, as [`NeuralNetwork::find_neighbors`]
/// lists them, are the nodes of its layer with another identifier and the nodes of
/// the next layer.
pub proof fn law_new_neighbors(nodes: Seq<(u32, usize)>, a: int, t: usize)
    requires
        0 <= a < nodes.len(),
        nodes.len() <= usize::MAX,
    ensures
        out_targets(grouped_edges(nodes), a, grouped_edges(nodes).len() as int).contains(t) <==> (t < nodes.len()
            && pair_kind(nodes, a, t as int) is Some),
{
    let edges = grouped_edges(nodes);
    lemma_out_targets(edges, a, edges.len() as int, t);
    lemma_plan_rows(nodes, Some(true), nodes.len() as int);
    lemma_plan_rows(nodes, Some(false), nodes.len() as int);
    let ps = plan(nodes, Some(true));
    let pn = plan(nodes, Some(false));
    if exists|e: int| 0 <= e < edges.len() && #[trigger] edges[e].0 == a && edges[e].1 == t {
        let e = choose|e: int| 0 <= e < edges.len() && #[trigger] edges[e].0 == a && edges[e].1 == t;
        if e < ps.len() {
            assert(edges[e] == (ps[e].0, ps[e].1, ps[e].2, e as usize));
            assert(ps[e].1 < nodes.len());
        } else {
            assert(edges[e] == (pn[e - ps.len()].0, pn[e - ps.len()].1, pn[e - ps.len()].2, (e - ps.len()) as usize));
            assert(pn[e - ps.len()].1 < nodes.len());
        }
        law_new_links(nodes, a, t as int);
    }
    if t < nodes.len() && pair_kind(nodes, a, t as int) is Some {
        law_new_links(nodes, a, t as int);
        let e = choose|e: int| 0 <= e < edges.len() && #[trigger] edges[e].0 == a && edges[e].1 == t as int;
        assert(edges[e].1 == t);
    }
}

} // verus!

verus! {

/// Only the first `k` nodes decide the identifiers listed for the first `k`.
pub proof fn lemma_nids_prefix(s: Seq<(u32, usize)>, t: Seq<(u32, usize)>, x: usize, k: int)
    requires
        0 <= k <= s.len(),
        k <= t.len(),
        forall|i: int| 0 <= i < k ==> s[i] == t[i],
    ensures
        nids_in_layer(s, x, k) == nids_in_layer(t, x, k),
    decreases k,
{
    if k > 0 {
        lemma_nids_prefix(s, t, x, k - 1);
    }
}

/// The identifiers listed for a concatenation are those listed for its two parts.
pub proof fn lemma_nids_concat(a: Seq<(u32, usize)>, b: Seq<(u32, usize)>, x: usize, m: int)
    requires
        0 <= m <= b.len(),
    ensures
        nids_in_layer(a + b, x, a.len() + m) == nids_in_layer(a, x, a.len() as int) + nids_in_layer(b, x, m),
    decreases m,
{
    if m == 0 {
        lemma_nids_prefix(a + b, a, x, a.len() as int);
        assert(nids_in_layer(a, x, a.len() as int) + nids_in_layer(b, x, 0) =~= nids_in_layer(a, x, a.len() as int));
    } else {
        lemma_nids_concat(a, b, x, m - 1);
        assert((a + b)[a.len() + m - 1] == b[m - 1]);
        assert(nids_in_layer(a + b, x, a.len() + m) =~= nids_in_layer(a, x, a.len() as int) + nids_in_layer(b, x, m));
    }
}

/// The identifiers listed for a block of nodes all in layer `l`.
pub proof fn lemma_nids_block(st: int, n: nat, l: usize, x: usize, m: int)
    requires
        0 <= m <= n,
    ensures
        nids_in_layer(Seq::new(n, |q: int| ((st + q) as u32, l)), x, m) == (if x == l {
            Seq::new(m as nat, |q: int| (st + q) as u32)
        } else {
            Seq::<u32>::empty()
        }),
    decreases m,
{
    if m > 0 {
        lemma_nids_block(st, n, l, x, m - 1);
        if x == l {
            assert(nids_in_layer(Seq::new(n, |q: int| ((st + q) as u32, l)), x, m) =~= Seq::new(
                m as nat,
                |q: int| (st + q) as u32,
            ));
        }
    }
}

/// The identifiers of the neurons of layer `x` in the layout of the first `k` layers:
/// consecutive, from the start of the layer, as many as the layer's size.
pub proof fn lemma_layout_layer(sizes: Seq<usize>, k: int, x: usize)
    requires
        0 <= k <= sizes.len(),
        k < usize::MAX,
    ensures
        nids_in_layer(layout(sizes, k), x, layout(sizes, k).len() as int) == (if 1 <= x <= k {
            Seq::new(sizes[x - 1] as nat, |q: int| (layer_start(sizes, x - 1) + q) as u32)
        } else {
            Seq::<u32>::empty()
        }),
    decreases k,
{
    if k > 0 {
        lemma_layout_layer(sizes, k - 1, x);
        let prev = layout(sizes, k - 1);
        let block = Seq::new(sizes[k - 1] as nat, |q: int| ((layer_start(sizes, k - 1) + q) as u32, k as usize));
        assert(layout(sizes, k) == prev + block);
        lemma_nids_concat(prev, block, x, block.len() as int);
        lemma_nids_block(layer_start(sizes, k - 1), sizes[k - 1] as nat, k as usize, x, sizes[k - 1] as int);
        if x == k {
            assert(nids_in_layer(prev, x, prev.len() as int) =~= Seq::<u32>::empty());
        }
        assert(nids_in_layer(layout(sizes, k), x, layout(sizes, k).len() as int) =~= (if 1 <= x <= k {
            Seq::new(sizes[x - 1] as nat, |q: int| (layer_start(sizes, x - 1) + q) as u32)
        } else {
            Seq::<u32>::empty()
        }));
    }
}

/// In a layout, every neuron's identifier is its node index.
pub proof fn lemma_layout_ids(sizes: Seq<usize>, k: int)
    requires
        0 <= k <= sizes.len(),
    ensures
        forall|i: int| 0 <= i < layout(sizes, k).len() ==> (#[trigger] layout(sizes, k)[i]).0 == i as u32,
    decreases k,
{
    if k > 0 {
        lemma_layout_ids(sizes, k - 1);
        let prev = layout(sizes, k - 1);
        lemma_layout_shape_len(sizes, k - 1);
        assert forall|i: int| 0 <= i < layout(sizes, k).len() implies (#[trigger] layout(sizes, k)[i]).0 == i as u32 by {
            if i < prev.len() {
                assert(layout(sizes, k)[i] == prev[i]);
            }
        }
    }
}

/// A layout of the first `k` layers has as many neurons as their sizes add up to.
pub proof fn lemma_layout_shape_len(sizes: Seq<usize>, k: int)
    ensures
        layout(sizes, k).len() == (if k <= 0 { 0 } else { layer_start(sizes, k) }),
    decreases k,
{
    if k > 0 {
        lemma_layout_shape_len(sizes, k - 1);
    }
}

/// Law of the layers of a network built by [`NeuralNetwork::new_from_arr`]: its
/// neurons are numbered by node index, and [`NeuralNetwork::get_layer`] lists, for
/// layer `l + 1`, exactly `arr[l]` neurons, with consecutive identifiers starting
/// after those of the earlier layers.
pub proof fn law_arr_layers(arr: Seq<u8>, l: int)
    requires
        0 <= l < arr.len(),
        arr.len() < usize::MAX,
    ensures
        ({
            let nodes = layout(byte_sizes(arr), arr.len() as int);
            &&& forall|i: int| 0 <= i < nodes.len() ==> (#[trigger] nodes[i]).0 == i as u32
            &&& nids_in_layer(nodes, (l + 1) as usize, nodes.len() as int) == Seq::new(
                arr[l] as nat,
                |q: int| (layer_start(byte_sizes(arr), l) + q) as u32,
            )
        }),
{
    lemma_layout_ids(byte_sizes(arr), arr.len() as int);
    lemma_layout_layer(byte_sizes(arr), arr.len() as int, (l + 1) as usize);
}

} // verus!

verus! {

/// The synapses each neuron of layer index `x` sends within its layer (`sel` is
/// `Some(true)`) or to the next layer (`sel` is `Some(false)`), in the layout of `sizes`.
pub open spec fn per_neuron(sizes: Seq<usize>, sel: Option<bool>, x: int) -> int {
    if sel == Some(true) {
        sizes[x] - 1
    } else if x + 1 < sizes.len() {
        sizes[x + 1] as int
    } else {
        0
    }
}

/// The synapses that the neurons of the layers before `x` send, of the kind `sel`.
pub open spec fn synapse_total(sizes: Seq<usize>, sel: Option<bool>, x: int) -> int
    decreases x,
{
    if x <= 0 {
        0
    } else {
        synapse_total(sizes, sel, x - 1) + sizes[x - 1] * per_neuron(sizes, sel, x - 1)
    }
}

/// In the layout of `sizes`, the `q`-th neuron of layer index `x` is node
/// `layer_start(x) + q`, in layer `x + 1`, numbered by its node index.
pub proof fn lemma_layout_at(sizes: Seq<usize>, k: int, x: int, q: int)
    requires
        0 <= x < k <= sizes.len(),
        0 <= q < sizes[x],
    ensures
        layer_start(sizes, x) + q < layout(sizes, k).len(),
        layout(sizes, k)[layer_start(sizes, x) + q] == ((layer_start(sizes, x) + q) as u32, (x + 1) as usize),
    decreases k,
{
    lemma_layout_shape_len(sizes, k);
    lemma_layout_shape_len(sizes, k - 1);
    crate::cdl::lemma_layer_start_mono(sizes, x + 1, k);
    crate::cdl::lemma_layer_start_nonneg(sizes, x);
    if x < k - 1 {
        lemma_layout_at(sizes, k - 1, x, q);
        crate::cdl::lemma_layer_start_mono(sizes, x + 1, k - 1);
        assert(layout(sizes, k)[layer_start(sizes, x) + q] == layout(sizes, k - 1)[layer_start(sizes, x) + q]);
    }
}

/// With identifiers that tell nodes apart, the synapses out of node `i` towards the
/// nodes before `k` number as the other nodes of its layer before `k` (within the
/// layer), or as the nodes of the next layer before `k`.
pub proof fn lemma_row_len(nodes: Seq<(u32, usize)>, sel: Option<bool>, i: int, k: int)
    requires
        0 <= i < nodes.len(),
        0 <= k <= nodes.len(),
        sel is Some,
        nodes[i].1 < usize::MAX,
        forall|a: int, b: int|
            0 <= a < nodes.len() && 0 <= b < nodes.len() && (#[trigger] nodes[a]).0 == (#[trigger] nodes[b]).0 ==> a == b,
    ensures
        sel == Some(true) ==> plan_row(nodes, sel, i, k).len() + (if i < k { 1int } else { 0 }) == nids_in_layer(
            nodes,
            nodes[i].1,
            k,
        ).len(),
        sel == Some(false) ==> plan_row(nodes, sel, i, k).len() == nids_in_layer(nodes, (nodes[i].1 + 1) as usize, k).len(),
    decreases k,
{
    if k > 0 {
        lemma_row_len(nodes, sel, i, k - 1);
        let j = k - 1;
        if j != i {
            assert(nodes[i].0 != nodes[j].0);
        }
    }
}

/// The synapses of the kind `sel` out of the first `layer_start(x) + q` nodes of the
/// layout of `sizes` number as the layers before `x` send, and `q` neurons of layer
/// index `x` more.
pub proof fn lemma_rows_len(sizes: Seq<usize>, sel: Option<bool>, x: int, q: int)
    requires
        sel is Some,
        0 <= x <= sizes.len(),
        x < sizes.len() ==> 0 <= q <= sizes[x],
        x == sizes.len() ==> q == 0,
        sizes.len() < usize::MAX,
        layer_start(sizes, sizes.len() as int) < u32::MAX,
    ensures
        plan_rows(layout(sizes, sizes.len() as int), sel, layer_start(sizes, x) + q).len() == synapse_total(sizes, sel, x) + q
            * (if x < sizes.len() { per_neuron(sizes, sel, x) } else { 0 }),
    decreases x, q,
{
    let L = sizes.len() as int;
    let nodes = layout(sizes, L);
    if q == 0 {
        if x > 0 {
            lemma_rows_len(sizes, sel, x - 1, sizes[x - 1] as int);
        }
    } else {
        lemma_rows_len(sizes, sel, x, q - 1);
        let i = layer_start(sizes, x) + q - 1;
        crate::cdl::lemma_layer_start_nonneg(sizes, x);
        lemma_layout_at(sizes, L, x, q - 1);
        lemma_layout_ids(sizes, L);
        lemma_layout_shape(sizes, L);
        lemma_layout_shape_len(sizes, L);
        crate::cdl::lemma_layer_start_mono(sizes, x + 1, L);
        assert forall|a: int, b: int|
            0 <= a < nodes.len() && 0 <= b < nodes.len() && (#[trigger] nodes[a]).0 == (#[trigger] nodes[b]).0 implies a
                == b by {
            assert(nodes[a].0 == a as u32);
            assert(nodes[b].0 == b as u32);
        }
        lemma_row_len(nodes, sel, i, nodes.len() as int);
        lemma_layout_layer(sizes, L, (x + 1) as usize);
        lemma_layout_layer(sizes, L, (x + 2) as usize);
        let g = per_neuron(sizes, sel, x);
        assert(nodes[i].1 == x + 1);
        if sel == Some(true) {
            assert(nids_in_layer(nodes, (x + 1) as usize, nodes.len() as int).len() == sizes[x]);
        } else {
            assert(sel == Some(false));
            if x + 1 < L {
                assert(nids_in_layer(nodes, (x + 2) as usize, nodes.len() as int).len() == sizes[x + 1]);
            } else {
                assert(nids_in_layer(nodes, (x + 2) as usize, nodes.len() as int).len() == 0);
            }
        }
        assert(plan_row(nodes, sel, i, nodes.len() as int).len() == g);
        assert(plan_rows(nodes, sel, i + 1).len() == plan_rows(nodes, sel, i).len() + plan_row(
            nodes,
            sel,
            i,
            nodes.len() as int,
        ).len());
        assert((q - 1) * g + g == q * g) by (nonlinear_arith);
    }
}

/// Law of the number of synapses of a layered network, as
/// [`NeuralNetwork::new_from_arr`] and [`NeuralNetwork::new_from_sizes`] build them:
/// each neuron of a layer of `s` neurons sends `s - 1` synapses within its layer and
/// one to each neuron of the next layer, so the network has
/// `synapse_total(Some(true)) + synapse_total(Some(false))` of them, in either order.
pub proof fn law_synapse_count(sizes: Seq<usize>)
    requires
        sizes.len() < usize::MAX,
        layer_start(sizes, sizes.len() as int) < u32::MAX,
    ensures
        grouped_edges(layout(sizes, sizes.len() as int)).len() == synapse_total(sizes, Some(true), sizes.len() as int)
            + synapse_total(sizes, Some(false), sizes.len() as int),
        scanned_edges(layout(sizes, sizes.len() as int)).len() == grouped_edges(layout(sizes, sizes.len() as int)).len(),
{
    let L = sizes.len() as int;
    let nodes = layout(sizes, L);
    lemma_layout_shape_len(sizes, L);
    lemma_rows_len(sizes, Some(true), L, 0);
    lemma_rows_len(sizes, Some(false), L, 0);
    lemma_plan_split(nodes, nodes.len() as int);
}

/// Every synapse is of one kind or the other: the synapses of both kinds number as
/// those within layers and those to the next layer together.
pub proof fn lemma_plan_split(nodes: Seq<(u32, usize)>, m: int)
    requires
        0 <= m <= nodes.len(),
    ensures
        plan_rows(nodes, None, m).len() == plan_rows(nodes, Some(true), m).len() + plan_rows(nodes, Some(false), m).len(),
    decreases m,
{
    if m > 0 {
        lemma_plan_split(nodes, m - 1);
        lemma_row_split(nodes, m - 1, nodes.len() as int);
    }
}

/// Row by row, the synapses of both kinds number as those of each kind together.
pub proof fn lemma_row_split(nodes: Seq<(u32, usize)>, i: int, k: int)
    ensures
        plan_row(nodes, None, i, k).len() == plan_row(nodes, Some(true), i, k).len() + plan_row(nodes, Some(false), i, k).len(),
    decreases k,
{
    if k > 0 {
        lemma_row_split(nodes, i, k - 1);
    }
}

} // verus!

verus! {

/// The synapses of `p` of the kind `k` (within a layer when `k` is true), in order.
pub open spec fn of_kind(p: Seq<(usize, usize, bool)>, k: bool) -> Seq<(usize, usize, bool)>
    decreases p.len(),
{
    if p.len() == 0 {
        Seq::empty()
    } else {
        of_kind(p.drop_last(), k) + if p.last().2 == k {
            seq![p.last()]
        } else {
            Seq::empty()
        }
    }
}

/// Taking the synapses of one kind commutes with concatenation.
pub proof fn lemma_of_kind_concat(a: Seq<(usize, usize, bool)>, b: Seq<(usize, usize, bool)>, k: bool)
    ensures
        of_kind(a + b, k) == of_kind(a, k) + of_kind(b, k),
    decreases b.len(),
{
    if b.len() == 0 {
        assert(a + b =~= a);
        assert(of_kind(a, k) + of_kind(b, k) =~= of_kind(a, k));
    } else {
        lemma_of_kind_concat(a, b.drop_last(), k);
        assert((a + b).drop_last() =~= a + b.drop_last());
        assert(of_kind(a + b, k) =~= of_kind(a, k) + of_kind(b, k));
    }
}

/// Row by row, the synapses of one kind in file order are the synapses planned for
/// that kind alone.
pub proof fn lemma_row_of_kind(nodes: Seq<(u32, usize)>, k: bool, i: int, m: int)
    ensures
        of_kind(plan_row(nodes, None, i, m), k) == plan_row(nodes, Some(k), i, m),
    decreases m,
{
    if m > 0 {
        lemma_row_of_kind(nodes, k, i, m - 1);
        let piece = if selected(pair_kind(nodes, i, m - 1), None) {
            seq![(i as usize, (m - 1) as usize, pair_kind(nodes, i, m - 1)->0)]
        } else {
            Seq::empty()
        };
        lemma_of_kind_concat(plan_row(nodes, None, i, m - 1), piece, k);
        if piece.len() == 1 {
            assert(piece.drop_last() =~= Seq::<(usize, usize, bool)>::empty());
            assert(of_kind(piece.drop_last(), k) == Seq::<(usize, usize, bool)>::empty());
            assert(piece.last().2 == pair_kind(nodes, i, m - 1)->0);
        } else {
            assert(of_kind(piece, k) == Seq::<(usize, usize, bool)>::empty());
        }
        assert(of_kind(piece, k) =~= if selected(pair_kind(nodes, i, m - 1), Some(k)) {
            seq![(i as usize, (m - 1) as usize, pair_kind(nodes, i, m - 1)->0)]
        } else {
            Seq::empty()
        });
    }
}

/// The synapses of one kind in file order are the synapses planned for that kind alone.
pub proof fn lemma_rows_of_kind(nodes: Seq<(u32, usize)>, k: bool, m: int)
    ensures
        of_kind(plan_rows(nodes, None, m), k) == plan_rows(nodes, Some(k), m),
    decreases m,
{
    if m > 0 {
        lemma_rows_of_kind(nodes, k, m - 1);
        lemma_row_of_kind(nodes, k, m - 1, nodes.len() as int);
        lemma_of_kind_concat(plan_rows(nodes, None, m - 1), plan_row(nodes, None, m - 1, nodes.len() as int), k);
    }
}

/// Law relating the two orders of the synapses: the synapses within layers that
/// [`NeuralNetwork::new`] ranks `0, 1, ...` are, in that order, the synapses within
/// layers of a model file's order, and likewise for the synapses to the next layer.
/// So the `k`-th weight of a kind, read from a model file in its order, belongs to the
/// synapse that `new` weights with rank `k` of that kind: a network read from a file
/// and one built by `new` from the file's weights split by kind have the same
/// synapses with the same weights, in another order.
pub proof fn law_file_order_by_kind(nodes: Seq<(u32, usize)>)
    ensures
        plan(nodes, Some(true)) == of_kind(plan(nodes, None), true),
        plan(nodes, Some(false)) == of_kind(plan(nodes, None), false),
        grouped_edges(nodes) == ranked(of_kind(plan(nodes, None), true)) + ranked(of_kind(plan(nodes, None), false)),
{
    lemma_rows_of_kind(nodes, true, nodes.len() as int);
    lemma_rows_of_kind(nodes, false, nodes.len() as int);
}

} // verus!
