use vstd::prelude::*;

verus! {

/// The decoder's record of one source symbol slot.
pub struct Block {
    /// The index of the slot.
    pub idx: usize,
    /// Handles of the pending droplets whose edges contain this slot.
    pub edges: Vec<usize>,
    /// Offset of the slot's first byte in the message.
    pub begin_at: usize,
    /// Whether the slot's symbol has been recovered.
    pub is_known: bool,
}

impl Block {
    pub fn new(idx: usize, edges: Vec<usize>, begin_at: usize, is_known: bool) -> (r: Block)
        ensures
            r.idx == idx,
            r.edges@ == edges@,
            r.begin_at == begin_at,
            r.is_known == is_known,
    {
        Block { idx, edges, begin_at, is_known }
    }
}

} // verus!
