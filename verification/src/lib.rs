//! Runtime core of the brane engine: a generational table with stable keys,
//! run-time type descriptions and byte stores for task data, the task graph
//! and its dependency placement, and the pure decisions of the graphics and
//! hot-reload layers.
use vstd::prelude::*;

pub mod graphics;
pub mod macros;
pub mod meta_type;
pub mod stable_table;
pub mod task;
pub mod text;
pub mod vulkan;
pub mod weaver;

use crate::meta_type::StoreValueId;
use crate::task::{acyclic, TaskGraph};

verus! {

/// The engine runtime: the graph of tasks evaluated every frame.
pub struct Runtime {
    pub main_graph: TaskGraph,
}

impl Runtime {
    pub fn new() -> (r: Self)
        ensures
            r.main_graph.wf(),
            r.main_graph.tasks().entries.len() == 0,
            acyclic(r.main_graph.tasks()),
            r.main_graph.stages().len() == 0,
            r.main_graph.store().wf(),
            forall|id: StoreValueId| r.main_graph.store().value_of(id) is None,
    {
        Self { main_graph: TaskGraph::new() }
    }
}

} // verus!
