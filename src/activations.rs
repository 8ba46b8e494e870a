use vstd::prelude::*;

verus! {

/// The nonlinearities a non-input layer can use, selected by tag so that a
/// stored model can name one without embedding code.
#[derive(Clone, Copy, Debug, PartialEq, Eq, Structural)]
pub enum ActivationFunction {
    Sigmoid,
    Tanh,
    Relu,
    LeakyRelu,
}

} // verus!
