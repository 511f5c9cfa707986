//! Search counters: evaluations and visited nodes for the foreground
//! search, and a separate node counter for the background search.
//! Increments saturate instead of wrapping.

use vstd::prelude::*;

verus! {

pub struct SearchStats {
    pub eval_count: usize,
    pub node_count: usize,
    pub background_node_count: usize,
}

impl SearchStats {
    pub fn new() -> (r: SearchStats)
        ensures
            r.eval_count == 0,
            r.node_count == 0,
            r.background_node_count == 0,
    {
        SearchStats { eval_count: 0, node_count: 0, background_node_count: 0 }
    }

    pub fn increment_eval_count(&mut self)
        ensures
            final(self).eval_count == if old(self).eval_count < usize::MAX {
                old(self).eval_count + 1
            } else {
                old(self).eval_count as int
            },
            final(self).node_count == old(self).node_count,
            final(self).background_node_count == old(self).background_node_count,
    {
        if self.eval_count < usize::MAX {
            self.eval_count = self.eval_count + 1;
        }
    }

    pub fn increment_node_count(&mut self)
        ensures
            final(self).node_count == if old(self).node_count < usize::MAX {
                old(self).node_count + 1
            } else {
                old(self).node_count as int
            },
            final(self).eval_count == old(self).eval_count,
            final(self).background_node_count == old(self).background_node_count,
    {
        if self.node_count < usize::MAX {
            self.node_count = self.node_count + 1;
        }
    }

    /// Bumps the background node counter and returns its new value.
    pub fn increment_background_node_count(&mut self) -> (r: usize)
        ensures
            final(self).background_node_count == if old(self).background_node_count < usize::MAX {
                old(self).background_node_count + 1
            } else {
                old(self).background_node_count as int
            },
            r == final(self).background_node_count,
            final(self).eval_count == old(self).eval_count,
            final(self).node_count == old(self).node_count,
    {
        if self.background_node_count < usize::MAX {
            self.background_node_count = self.background_node_count + 1;
        }
        self.background_node_count
    }

    pub fn get_eval_count(&self) -> (r: usize)
        ensures
            r == self.eval_count,
    {
        self.eval_count
    }

    pub fn get_node_count(&self) -> (r: usize)
        ensures
            r == self.node_count,
    {
        self.node_count
    }

    pub fn get_background_node_count(&self) -> (r: usize)
        ensures
            r == self.background_node_count,
    {
        self.background_node_count
    }

    pub fn reset_counters(&mut self)
        ensures
            final(self).eval_count == 0,
            final(self).node_count == 0,
            final(self).background_node_count == old(self).background_node_count,
    {
        self.eval_count = 0;
        self.node_count = 0;
    }

    pub fn reset_background_counter(&mut self)
        ensures
            final(self).background_node_count == 0,
            final(self).eval_count == old(self).eval_count,
            final(self).node_count == old(self).node_count,
    {
        self.background_node_count = 0;
    }
}

} // verus!
