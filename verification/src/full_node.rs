//! A freshly produced tree node, split into what is global to the whole
//! build and what is local to the subtree being produced.

use vstd::prelude::*;

verus! {

/// A produced node: its build-global part and its subtree-local part.
pub struct FullNode<Global, Local> {
    pub global: Global,
    pub local: Local,
}

impl<Global, Local> FullNode<Global, Local> {
    pub fn new(global: Global, local: Local) -> (r: Self)
        ensures
            r.global == global,
            r.local == local,
    {
        FullNode { global, local }
    }

    pub fn global(&self) -> (r: &Global)
        ensures
            r == &self.global,
    {
        &self.global
    }

    pub fn local(&self) -> (r: &Local)
        ensures
            r == &self.local,
    {
        &self.local
    }
}

} // verus!
