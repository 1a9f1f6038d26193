//! A structural position: a root-to-node path through a tree, kept as two
//! parallel stacks of node handles and one-based child offsets.
//!
//! Offset slot `0` belongs to the path's first node and carries no child
//! offset; every later slot holds `child index + 1` for the step from the
//! previous node.

use crate::tree_store::NodeStore;
use vstd::prelude::*;

verus! {

/// A path of node handles with the child offsets taken along it.
pub struct StructuralPosition<IdN> {
    pub nodes: Vec<IdN>,
    pub offsets: Vec<usize>,
}

/// One parent-child step checks out in the store: the parent resolves and
/// its child at the (one-based) offset is the expected node.
pub open spec fn link_ok(s: &NodeStore, parent: usize, child: usize, off: int) -> bool {
    &&& (parent as int) < s.nodes@.len()
    &&& 1 <= off
    &&& off - 1 < s.nodes@[parent as int].children@.len()
    &&& s.nodes@[parent as int].children@[off - 1] == child
}

impl<IdN> StructuralPosition<IdN> {
    /// The two stacks move together.
    pub open spec fn wf(&self) -> bool {
        self.nodes@.len() == self.offsets@.len()
    }

    pub fn new(node: IdN) -> (r: Self)
        ensures
            r.nodes@.len() == 1,
            r.nodes@[0] == node,
            r.offsets@ == seq![0usize],
            r.wf(),
    {
        StructuralPosition { nodes: vec![node], offsets: vec![0] }
    }

    /// The path's current node, if any.
    pub fn node(&self) -> (r: Option<&IdN>)
        ensures
            match r {
                Some(x) => self.nodes@.len() > 0 && *x == self.nodes@.last(),
                None => self.nodes@.len() == 0,
            },
    {
        if self.nodes.len() == 0 {
            None
        } else {
            Some(&self.nodes[self.nodes.len() - 1])
        }
    }

    /// The current offset, if any.
    pub fn offset(&self) -> (r: Option<&usize>)
        ensures
            match r {
                Some(x) => self.offsets@.len() > 0 && *x == self.offsets@.last(),
                None => self.offsets@.len() == 0,
            },
    {
        if self.offsets.len() == 0 {
            None
        } else {
            Some(&self.offsets[self.offsets.len() - 1])
        }
    }

    /// Leave the current node, returning it with its offset.
    pub fn pop(&mut self) -> (r: Option<(IdN, usize)>)
        ensures
            old(self).nodes@.len() > 0 && old(self).offsets@.len() > 0 ==> r is Some,
            match r {
                Some(p) => {
                    &&& old(self).nodes@.len() > 0
                    &&& old(self).offsets@.len() > 0
                    &&& p.0 == old(self).nodes@.last()
                    &&& p.1 == old(self).offsets@.last()
                    &&& final(self).nodes@ == old(self).nodes@.drop_last()
                    &&& final(self).offsets@ == old(self).offsets@.drop_last()
                },
                None => final(self).offsets@ == old(self).offsets@ && (final(self).nodes@ == old(
                    self,
                ).nodes@ || final(self).nodes@ == old(self).nodes@.drop_last()),
            },
    {
        let n = match self.nodes.pop() {
            Some(n) => n,
            None => {
                return None;
            },
        };
        let o = match self.offsets.pop() {
            Some(o) => o,
            None => {
                return None;
            },
        };
        Some((n, o))
    }

    /// Step down to child `i` of the current node.
    pub fn goto(&mut self, node: IdN, i: usize)
        requires
            i < usize::MAX,
        ensures
            final(self).nodes@ == old(self).nodes@.push(node),
            final(self).offsets@ == old(self).offsets@.push((i + 1) as usize),
    {
        self.nodes.push(node);
        self.offsets.push(i + 1);
    }

    /// Move to the next sibling.
    pub fn inc(&mut self, node: IdN)
        requires
            old(self).nodes@.len() > 0,
            old(self).offsets@.len() > 0,
            old(self).offsets@.last() < usize::MAX,
        ensures
            final(self).nodes@ == old(self).nodes@.update(
                old(self).nodes@.len() - 1,
                node,
            ),
            final(self).offsets@ == old(self).offsets@.update(
                old(self).offsets@.len() - 1,
                (old(self).offsets@.last() + 1) as usize,
            ),
    {
        let k = self.nodes.len() - 1;
        self.nodes[k] = node;
        let l = self.offsets.len() - 1;
        let v = self.offsets[l];
        self.offsets[l] = v + 1;
    }

    /// Move to the previous sibling; the offset must stay one-based.
    pub fn dec(&mut self, node: IdN)
        requires
            old(self).nodes@.len() > 0,
            old(self).offsets@.len() > 0 ==> old(self).offsets@.last() > 1,
        ensures
            final(self).nodes@ == old(self).nodes@.update(
                old(self).nodes@.len() - 1,
                node,
            ),
            old(self).offsets@.len() > 0 ==> final(self).offsets@ == old(self).offsets@.update(
                old(self).offsets@.len() - 1,
                (old(self).offsets@.last() - 1) as usize,
            ),
            old(self).offsets@.len() == 0 ==> final(self).offsets@ == old(self).offsets@,
    {
        let k = self.nodes.len() - 1;
        self.nodes[k] = node;
        if self.offsets.len() > 0 {
            let l = self.offsets.len() - 1;
            let v = self.offsets[l];
            self.offsets[l] = v - 1;
        }
    }

    /// Assemble a position from a parent path, its offsets, and one more
    /// node.
    pub fn from_parts(nodes: Vec<IdN>, offsets: Vec<usize>, node: IdN) -> (r: Self)
        requires
            nodes@.len() + 1 == offsets@.len(),
        ensures
            r.nodes@ == nodes@.push(node),
            r.offsets@ == offsets@,
            r.wf(),
    {
        let mut nodes = nodes;
        nodes.push(node);
        StructuralPosition { nodes, offsets }
    }

    /// Assemble a position from two stacks of equal height.
    pub fn from_pair(nodes: Vec<IdN>, offsets: Vec<usize>) -> (r: Self)
        requires
            nodes@.len() == offsets@.len(),
        ensures
            r.nodes@ == nodes@,
            r.offsets@ == offsets@,
            r.wf(),
    {
        StructuralPosition { nodes, offsets }
    }
}

impl StructuralPosition<usize> {
    /// Walks the recorded path against the store: `Ok` exactly when every
    /// step from a node to the next follows the recorded child offset.
    pub fn check(&self, stores: &NodeStore) -> (r: Result<(), ()>)
        requires
            self.wf(),
        ensures
            r is Ok <==> (self.nodes@.len() == 0 || forall|i: int|
                1 <= i < self.nodes@.len() ==> link_ok(
                    stores,
                    #[trigger] self.nodes@[i - 1],
                    self.nodes@[i],
                    self.offsets@[i] as int,
                )),
    {
        if self.nodes.len() == 0 {
            return Ok(());
        }
        let mut i: usize = self.nodes.len() - 1;
        let sn = stores.len();
        while i > 0
            invariant
                self.wf(),
                i < self.nodes@.len(),
                sn == stores.nodes@.len(),
                forall|j: int|
                    i < j < self.nodes@.len() ==> link_ok(
                        stores,
                        #[trigger] self.nodes@[j - 1],
                        self.nodes@[j],
                        self.offsets@[j] as int,
                    ),
            decreases i,
        {
            let e = self.nodes[i];
            let off = self.offsets[i];
            let p = self.nodes[i - 1];
            if off == 0 || p >= sn {
                return Err(());
            }
            let o = off - 1;
            let b = stores.resolve(p);
            if o >= b.children.len() || b.children[o] != e {
                return Err(());
            }
            i -= 1;
        }
        Ok(())
    }
}

} // verus!
