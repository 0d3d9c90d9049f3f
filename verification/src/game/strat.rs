use vstd::prelude::*;

verus! {

/// A single node in the strategy DAG.
#[derive(Debug, Clone)]
pub struct StrategyNode {
    /// The index of the guess in the sorted guesses list.
    pub guess: usize,
    /// For each response that leaves candidates, its letters (such as "BGYBB") and the
    /// index of the node to go on with; each response listed once.
    pub children: Vec<(String, usize)>,
}

/// The root container for the strategy.
#[derive(Debug)]
pub struct Strategy {
    /// A stable hash of the word lists used to generate the strategy.
    pub context_hash: u64,
    /// The index of the starting node in the nodes list.
    pub root: usize,
    /// The flat list of all nodes.
    pub nodes: Vec<StrategyNode>,
}

} // verus!
