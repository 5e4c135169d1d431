use vstd::prelude::*;

verus! {

/// The casino brands that a built tile can carry.
#[derive(PartialEq, Eq, Structural, PartialOrd, Ord, Hash, Debug, Copy, Clone)]
pub enum Casino {
    Albion,
    Sphinx,
    Vega,
    Tivoli,
    Pioneer,
}

} // verus!
