//! A spiking neural network library: the layered topology of the network,
//! the layer barrier that paces its neurons, and the impulses it emits.
#![allow(non_snake_case)]
#![allow(non_camel_case_types)]

pub mod cdl;
pub mod graph;
pub mod impulse;
pub mod network;
pub mod model_file;
