use vstd::prelude::*;

use crate::activations::ActivationFunction;

verus! {

/// One position in a network's topology: how many neurons it has and, for
/// every layer but the input one, the activation it applies.
#[derive(Clone, Copy, Debug, PartialEq, Eq, Structural)]
pub struct Layer {
    pub size: usize,
    pub activation: Option<ActivationFunction>,
}

impl Layer {
    pub fn new(size: usize, activation: Option<ActivationFunction>) -> (res: Self)
        ensures
            res.size == size,
            res.activation == activation,
    {
        Layer { size, activation }
    }

    /// An input layer: `size` neurons and no activation.
    pub fn input(size: usize) -> (res: Self)
        ensures
            res.size == size,
            res.activation is None,
    {
        Layer::new(size, None)
    }

    /// A layer of `size` neurons that applies `activation`.
    pub fn hidden(size: usize, activation: ActivationFunction) -> (res: Self)
        ensures
            res.size == size,
            res.activation == Some(activation),
    {
        Layer::new(size, Some(activation))
    }

    /// The activation this layer applies, if any.
    pub fn activation(&self) -> (res: Option<ActivationFunction>)
        ensures
            res == self.activation,
    {
        self.activation
    }
}

/// A topology a network can be built on: at least two layers, each with at
/// least one neuron, the first without an activation and every later one
/// with one.
pub open spec fn valid_topology(layers: Seq<Layer>) -> bool {
    &&& layers.len() >= 2
    &&& layers[0].activation is None
    &&& forall|i: int| 0 <= i < layers.len() ==> #[trigger] layers[i].size > 0
    &&& forall|i: int| 1 <= i < layers.len() ==> #[trigger] layers[i].activation is Some
}

/// Whether `layers` is a topology a network can be built on.
pub fn is_valid_topology(layers: &Vec<Layer>) -> (res: bool)
    ensures
        res == valid_topology(layers@),
{
    if layers.len() < 2 {
        return false;
    }
    if layers[0].activation().is_some() {
        return false;
    }
    let mut i: usize = 0;
    while i < layers.len()
        invariant
            layers.len() >= 2,
            layers@[0].activation is None,
            i <= layers.len(),
            forall|j: int| 0 <= j < i ==> #[trigger] layers@[j].size > 0,
            forall|j: int| 1 <= j < i ==> #[trigger] layers@[j].activation is Some,
        decreases layers.len() - i,
    {
        if layers[i].size == 0 {
            return false;
        }
        if i >= 1 && layers[i].activation().is_none() {
            return false;
        }
        i = i + 1;
    }
    true
}

} // verus!
