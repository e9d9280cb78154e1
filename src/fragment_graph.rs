//! A graph of stream fragments: each fragment holds the root node of its
//! part of a streaming plan, and edges lead from a fragment to the
//! fragments that feed it.
use vstd::prelude::*;
use std::collections::{BTreeSet, HashMap};

verus! {

broadcast use vstd::std_specs::hash::group_hash_axioms, vstd::laws_cmp::group_laws_cmp;

pub type FragmentId = u32;

/// What a fragment does in the plan.
#[derive(Clone, Copy, Debug, PartialEq, Eq, Structural)]
pub enum FragmentType {
    Others,
    Source,
    Sink,
}

/// How the work of a fragment is spread over actors.
#[derive(Clone, Copy, Debug, PartialEq, Eq, Structural)]
pub enum FragmentDistributionType {
    Single,
    Hash,
}

/// Why a lookup in the graph failed.
#[derive(Clone, Copy, Debug, PartialEq, Eq, Structural)]
pub enum GraphError {
    FragmentNotFound,
}

/// One fragment, with the root node `N` of its plan.
pub struct StreamFragment<N> {
    pub fragment_id: FragmentId,
    pub node: N,
    pub fragment_type: FragmentType,
    /// The fragment runs on one actor only.
    pub is_singleton: bool,
}

impl<N> StreamFragment<N> {
    /// A fragment of the default type, not a singleton.
    pub fn new(fragment_id: FragmentId, node: N) -> (r: Self)
        ensures
            r.fragment_id == fragment_id,
            r.node == node,
            r.fragment_type == FragmentType::Others,
            !r.is_singleton,
    {
        StreamFragment { fragment_id, node, fragment_type: FragmentType::Others, is_singleton: false }
    }

    pub fn get_fragment_id(&self) -> (r: FragmentId)
        ensures
            r == self.fragment_id,
    {
        self.fragment_id
    }

    pub fn get_node(&self) -> (r: &N)
        ensures
            *r == self.node,
    {
        &self.node
    }

    pub fn set_fragment_type(&mut self, fragment_type: FragmentType)
        ensures
            *final(self) == (StreamFragment { fragment_type, ..*old(self) }),
    {
        self.fragment_type = fragment_type;
    }

    pub fn is_singleton(&self) -> (r: bool)
        ensures
            r == self.is_singleton,
    {
        self.is_singleton
    }

    pub fn set_singleton(&mut self, is_singleton: bool)
        ensures
            *final(self) == (StreamFragment { is_singleton, ..*old(self) }),
    {
        self.is_singleton = is_singleton;
    }
}

/// The fragments of a plan, the id of its root fragment, and the edges from
/// each fragment to the set of its children.
pub struct StreamFragmentGraph<N> {
    pub fragment_id: FragmentId,
    pub fragments: HashMap<FragmentId, StreamFragment<N>>,
    pub child_edges: HashMap<FragmentId, BTreeSet<FragmentId>>,
}

/// The children of `id` after linking `child` to it.
pub open spec fn linked(edges: Map<FragmentId, BTreeSet<FragmentId>>, id: FragmentId) -> Set<FragmentId> {
    if edges.contains_key(id) {
        edges[id]@
    } else {
        Set::empty()
    }
}

impl<N> StreamFragmentGraph<N> {
    /// An empty graph whose root is `fragment_id`, or 0.
    pub fn new(fragment_id: Option<FragmentId>) -> (r: Self)
        ensures
            r.fragment_id == (match fragment_id {
                Some(id) => id,
                None => 0,
            }),
            r.fragments@ == Map::<FragmentId, StreamFragment<N>>::empty(),
            r.child_edges@ == Map::<FragmentId, BTreeSet<FragmentId>>::empty(),
    {
        let id = match fragment_id {
            Some(id) => id,
            None => 0,
        };
        StreamFragmentGraph { fragment_id: id, fragments: HashMap::new(), child_edges: HashMap::new() }
    }

    /// The root fragment, which must be in the graph.
    pub fn get_root_fragment(&self) -> (r: &StreamFragment<N>)
        requires
            self.fragments@.contains_key(self.fragment_id),
        ensures
            *r == self.fragments@[self.fragment_id],
    {
        self.fragments.get(&self.fragment_id).unwrap()
    }

    /// Adds (or replaces) a fragment under its id; with `is_root` it
    /// becomes the root.
    pub fn add_fragment(&mut self, stream_fragment: StreamFragment<N>, is_root: bool)
        ensures
            final(self).fragment_id == (if is_root {
                stream_fragment.fragment_id
            } else {
                old(self).fragment_id
            }),
            final(self).fragments@ == old(self).fragments@.insert(stream_fragment.fragment_id, stream_fragment),
            final(self).child_edges@ == old(self).child_edges@,
    {
        if is_root {
            self.fragment_id = stream_fragment.fragment_id;
        }
        let id = stream_fragment.fragment_id;
        self.fragments.insert(id, stream_fragment);
    }

    /// Links `child_id` to its parent fragment.
    pub fn link_child(&mut self, parent_id: FragmentId, child_id: FragmentId)
        ensures
            final(self).fragment_id == old(self).fragment_id,
            final(self).fragments@ == old(self).fragments@,
            final(self).child_edges@.dom() == old(self).child_edges@.dom().insert(parent_id),
            forall|id: FragmentId|
                id != parent_id && #[trigger] old(self).child_edges@.contains_key(id)
                    ==> final(self).child_edges@[id] == old(self).child_edges@[id],
            final(self).child_edges@[parent_id]@ == linked(old(self).child_edges@, parent_id).insert(child_id),
    {
        let mut children = match self.child_edges.remove(&parent_id) {
            Some(s) => s,
            None => BTreeSet::new(),
        };
        children.insert(child_id);
        self.child_edges.insert(parent_id, children);
    }

    /// Whether some child is linked to `fragment_id`.
    pub fn has_upstream(&self, fragment_id: FragmentId) -> (r: bool)
        ensures
            r == self.child_edges@.contains_key(fragment_id),
    {
        self.child_edges.contains_key(&fragment_id)
    }

    /// The children linked to `fragment_id`, if any was.
    pub fn get_upstream_fragments(&self, fragment_id: FragmentId) -> (r: Option<BTreeSet<FragmentId>>)
        ensures
            match r {
                Some(s) => self.child_edges@.contains_key(fragment_id) && s@ == self.child_edges@[fragment_id]@,
                None => !self.child_edges@.contains_key(fragment_id),
            },
    {
        match self.child_edges.get(&fragment_id) {
            Some(s) => Some(s.clone()),
            None => None,
        }
    }

    /// The fragment with this id, if any.
    pub fn get_fragment_by_id(&self, fragment_id: FragmentId) -> (r: Option<&StreamFragment<N>>)
        ensures
            match r {
                Some(f) => self.fragments@.contains_key(fragment_id) && *f == self.fragments@[fragment_id],
                None => !self.fragments@.contains_key(fragment_id),
            },
    {
        self.fragments.get(&fragment_id)
    }

    /// The type of the fragment with this id.
    pub fn get_fragment_type_by_id(&self, fragment_id: FragmentId) -> (r: Result<FragmentType, GraphError>)
        ensures
            match r {
                Ok(t) => self.fragments@.contains_key(fragment_id) && t == self.fragments@[fragment_id].fragment_type,
                Err(e) => !self.fragments@.contains_key(fragment_id) && e == GraphError::FragmentNotFound,
            },
    {
        match self.fragments.get(&fragment_id) {
            Some(f) => Ok(f.fragment_type),
            None => Err(GraphError::FragmentNotFound),
        }
    }

    /// How the fragment with this id is distributed: on one actor for a
    /// singleton, by hash otherwise.
    pub fn get_distribution_type_by_id(&self, fragment_id: FragmentId) -> (r: Result<FragmentDistributionType, GraphError>)
        ensures
            match r {
                Ok(t) => self.fragments@.contains_key(fragment_id) && (t == FragmentDistributionType::Single
                    <==> self.fragments@[fragment_id].is_singleton),
                Err(e) => !self.fragments@.contains_key(fragment_id) && e == GraphError::FragmentNotFound,
            },
    {
        match self.fragments.get(&fragment_id) {
            Some(f) => if f.is_singleton {
                Ok(FragmentDistributionType::Single)
            } else {
                Ok(FragmentDistributionType::Hash)
            },
            None => Err(GraphError::FragmentNotFound),
        }
    }
}

} // verus!
