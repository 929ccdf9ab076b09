//! What block plugins are handed while a graph is drawn or compiled.
use vstd::prelude::*;

use crate::graph::Graph;
use crate::text::string_of;

verus! {

/// Rendering context for block plugins during SVG generation.
pub struct RenderContext {
    /// Total number of parameters across all blocks in the graph.
    pub total_params: usize,
    /// CSS class name for styling.
    pub class_name: String,
}

impl RenderContext {
    pub fn new(total_params: usize, class_name: &str) -> (r: Self)
        ensures
            r.total_params == total_params,
            r.class_name@ == class_name@,
    {
        RenderContext { total_params, class_name: string_of(class_name) }
    }
}

/// Code generation context for block plugins.
pub struct CodegenContext {
    /// Target language (e.g. "pytorch", "candle", "keras").
    pub target: String,
    /// The full block graph being compiled.
    pub block_graph: Graph,
}

impl CodegenContext {
    pub fn new(target: &str, block_graph: Graph) -> (r: Self)
        ensures
            r.target@ == target@,
            r.block_graph == block_graph,
    {
        CodegenContext { target: string_of(target), block_graph }
    }
}

} // verus!
