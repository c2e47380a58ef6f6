//! Chunks and the modules in them.

use rustc_hash::FxHashMap;
use vstd::prelude::*;

use crate::link::ModuleIdx;

verus! {

/// Position of a chunk in the chunk table.
pub type ChunkIdx = usize;

/// A chunk: the modules it hosts, in the order in which their bodies stand in it.
#[derive(Debug)]
pub struct Chunk {
    pub modules: Vec<ModuleIdx>,
    pub exec_order: u32,
}

/// How the modules are distributed over chunks.
#[derive(Debug)]
pub struct ChunkGraph {
    pub chunk_table: Vec<Chunk>,
    /// The chunk that hosts each module, if one does.
    pub module_to_chunk: Vec<Option<ChunkIdx>>,
    pub entry_module_to_entry_chunk: FxHashMap<ModuleIdx, ChunkIdx>,
    /// Whether the chunk that hosts the module is still emitted.
    pub module_in_live_chunk: Vec<bool>,
}

impl ChunkGraph {
    /// Every index leads somewhere, in a program of `module_count` modules.
    pub open spec fn wf(self, module_count: nat) -> bool {
        &&& self.module_to_chunk@.len() == module_count
        &&& self.module_in_live_chunk@.len() == module_count
        &&& forall|m: int|
            #![trigger self.module_to_chunk@[m]]
            0 <= m < module_count ==> (self.module_to_chunk@[m] matches Some(chunk) ==> chunk
                < self.chunk_table@.len())
        &&& forall|c: int, k: int|
            0 <= c < self.chunk_table@.len() && 0 <= k < self.chunk_table@[c].modules@.len() ==> (
            #[trigger] self.chunk_table@[c].modules@[k]) < module_count
        &&& forall|m: ModuleIdx| #[trigger]
            self.entry_module_to_entry_chunk@.contains_key(m)
                ==> self.entry_module_to_entry_chunk@[m] < self.chunk_table@.len()
    }

    /// Chunk `c` hosts module `m`.
    pub open spec fn hosts(self, c: ChunkIdx, m: ModuleIdx) -> bool {
        c < self.chunk_table@.len() && self.chunk_table@[c as int].modules@.contains(m)
    }

    pub open spec fn chunk_of(self, m: ModuleIdx) -> Option<ChunkIdx> {
        self.module_to_chunk@[m as int]
    }

    /// Whether the chunk that hosts the module is still emitted.
    pub fn module_is_in_live_chunk(&self, module_idx: ModuleIdx) -> (live: bool)
        requires
            module_idx < self.module_in_live_chunk@.len(),
        ensures
            live == self.module_in_live_chunk@[module_idx as int],
    {
        self.module_in_live_chunk[module_idx]
    }
}

} // verus!
