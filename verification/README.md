# spiking_network

A spiking neural network whose neurons are arranged in layers. Each neuron sends
synapses to the other neurons of its layer and to every neuron of the next layer;
one thread per neuron runs the network, and a layer barrier decides which neurons
may fire next.

- `src/` is the verified library (Verus):
  - `cdl.rs`: the layer barrier (`barriera`): which neuron slots are enabled, how a
    layer's round of count-downs hands over to the following layers.
  - `graph.rs`: the calls into `petgraph` and the names of a graph's contents.
  - `network.rs`: the topology (`NeuralNetwork`): building it from neurons, from
    layer sizes, or in the order of a model file; listing layers and neighbours;
    the laws of its synapses.
  - `model_file.rs`: the header line of a model file, `[4, 3, 2]`.
  - `impulse.rs`: the impulses the network emits.
- `app/` is the running system: neurons with floating-point potentials, reading a
  model file, the threads of the simulation and the barrier behind a mutex.
- `tests/` exercises the library.
