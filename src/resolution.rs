use vstd::prelude::*;
use std::collections::HashMap;

use crate::ast::NodeId;

verus! {

broadcast use vstd::std_specs::hash::group_hash_axioms;

/// Where following the resolutions from `p` ends, taking at most `fuel`
/// steps: `None` if `p` resolves to nothing; a node that resolves to itself
/// ends the walk, as does the last node reached when the fuel runs out.
pub open spec fn follow(m: Map<NodeId, NodeId>, p: NodeId, fuel: nat) -> Option<NodeId>
    decreases fuel,
{
    if !m.contains_key(p) {
        None
    } else if m[p] == p || fuel == 0 {
        Some(m[p])
    } else {
        match follow(m, m[p], (fuel - 1) as nat) {
            Some(x) => Some(x),
            None => Some(m[p]),
        }
    }
}

/// Which node each node refers to, filled by name resolution.
#[derive(Debug)]
pub struct ResolutionMap {
    pub map: HashMap<NodeId, NodeId>,
}

impl View for ResolutionMap {
    type V = Map<NodeId, NodeId>;

    open spec fn view(&self) -> Map<NodeId, NodeId> {
        self.map@
    }
}

impl ResolutionMap {
    pub fn new() -> (r: Self)
        ensures
            r@ == Map::<NodeId, NodeId>::empty(),
    {
        ResolutionMap { map: HashMap::new() }
    }

    /// Records that `pointer_id` refers to `pointee_id`, replacing what it
    /// referred to before.
    pub fn insert(&mut self, pointer_id: NodeId, pointee_id: NodeId)
        ensures
            final(self)@ == old(self)@.insert(pointer_id, pointee_id),
    {
        let _ = self.map.insert(pointer_id, pointee_id);
    }

    pub fn get(&self, pointer_id: &NodeId) -> (r: Option<NodeId>)
        ensures
            r == if self@.contains_key(*pointer_id) {
                Some(self@[*pointer_id])
            } else {
                None
            },
    {
        match self.map.get(pointer_id) {
            Some(v) => Some(*v),
            None => None,
        }
    }

    fn follow_from(&self, pointer_id: NodeId, fuel: usize) -> (r: Option<NodeId>)
        ensures
            r == follow(self@, pointer_id, fuel as nat),
        decreases fuel,
    {
        match self.get(&pointer_id) {
            None => None,
            Some(pointee_id) => {
                if pointee_id == pointer_id || fuel == 0 {
                    Some(pointee_id)
                } else {
                    match self.follow_from(pointee_id, fuel - 1) {
                        Some(x) => Some(x),
                        None => Some(pointee_id),
                    }
                }
            },
        }
    }

    /// Follows the resolutions from `pointer_id` to the node at the end of
    /// the chain, taking at most one step per entry of the map.
    pub fn get_recur(&self, pointer_id: &NodeId) -> (r: Option<NodeId>)
        ensures
            r == follow(self@, *pointer_id, self@.len()),
    {
        let n = self.map.len();
        self.follow_from(*pointer_id, n)
    }

    pub fn get_map(&self) -> (r: HashMap<NodeId, NodeId>)
        ensures
            r@ == self@,
    {
        self.map.clone()
    }

    pub fn clear(&mut self)
        ensures
            final(self)@ == Map::<NodeId, NodeId>::empty(),
    {
        self.map.clear();
    }

    pub fn remove(&mut self, item: &NodeId)
        ensures
            final(self)@ == old(self)@.remove(*item),
    {
        let _ = self.map.remove(item);
    }

    pub fn inner(&self) -> (r: &HashMap<NodeId, NodeId>)
        ensures
            r@ == self@,
    {
        &self.map
    }
}

/// Traits and methods known to trait resolution.
#[derive(Debug)]
pub struct TraitSolver {
    pub implemented_trait: Vec<(String, Vec<String>)>,
    pub implemented_fns: Vec<(String, Vec<(NodeId, String)>)>,
    pub trait_methods: Vec<(String, Vec<(NodeId, String)>)>,
}

impl TraitSolver {
    pub fn new() -> (r: Self)
        ensures
            r.implemented_trait@.len() == 0,
            r.implemented_fns@.len() == 0,
            r.trait_methods@.len() == 0,
    {
        TraitSolver { implemented_trait: Vec::new(), implemented_fns: Vec::new(), trait_methods: Vec::new() }
    }
}

} // verus!
