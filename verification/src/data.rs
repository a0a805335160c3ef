//! The node collection and the passes that validate, transform and number it.

use vstd::prelude::*;

use crate::error::{Error, ErrorV};

verus! {

/// Spec-level image of a [`Node`]: every string as a character sequence.
pub ghost struct NodeV {
    pub pid: Option<usize>,
    pub node: Seq<char>,
    pub origin: Option<Seq<char>>,
    pub label: Seq<char>,
    pub parent_node: Option<Seq<char>>,
    pub parent_id: Option<usize>,
    pub leaf: bool,
    pub lft: Option<usize>,
    pub rgt: Option<usize>,
    pub count: Option<usize>,
}

/// One record of the hierarchy.
///
/// `node` is the identity, unique among non-leaf nodes of a proper tree;
/// `parent_node` is `None` exactly on the root; `origin` is set only on
/// copies whose identity the unfolding pass had to disambiguate. `pid`,
/// `parent_id`, `lft`, `rgt` and `count` stay `None` until the indexing
/// pass fills them in.
#[derive(Debug)]
pub struct Node {
    pub pid: Option<usize>,
    pub node: String,
    pub origin: Option<String>,
    pub label: String,
    pub parent_node: Option<String>,
    pub parent_id: Option<usize>,
    pub leaf: bool,
    pub lft: Option<usize>,
    pub rgt: Option<usize>,
    pub count: Option<usize>,
}

impl View for Node {
    type V = NodeV;

    open spec fn view(&self) -> NodeV {
        NodeV {
            pid: self.pid,
            node: self.node@,
            origin: match self.origin {
                Some(s) => Some(s@),
                None => None,
            },
            label: self.label@,
            parent_node: match self.parent_node {
                Some(s) => Some(s@),
                None => None,
            },
            parent_id: self.parent_id,
            leaf: self.leaf,
            lft: self.lft,
            rgt: self.rgt,
            count: self.count,
        }
    }
}

impl Node {
    /// An explicit copy of the record; the copy has the same image.
    pub fn duplicate(&self) -> (r: Node)
        ensures
            r@ == self@,
    {
        Node {
            pid: self.pid,
            node: self.node.clone(),
            origin: match &self.origin {
                Some(s) => Some(s.clone()),
                None => None,
            },
            label: self.label.clone(),
            parent_node: match &self.parent_node {
                Some(s) => Some(s.clone()),
                None => None,
            },
            parent_id: self.parent_id,
            leaf: self.leaf,
            lft: self.lft,
            rgt: self.rgt,
            count: self.count,
        }
    }
}

/// The image of a node collection: the image of each of its records.
pub open spec fn nodes_view(nodes: Seq<Node>) -> Seq<NodeV> {
    nodes.map_values(|n: Node| n@)
}

/// A root record: one without a parent identity.
pub open spec fn is_root(n: NodeV) -> bool {
    n.parent_node is None
}

/// More than one non-leaf record carries the same identity.
pub open spec fn spec_is_dag(s: Seq<NodeV>) -> bool {
    exists|i: int, j: int|
        0 <= i < j < s.len() && !s[i].leaf && !s[j].leaf && s[i].node == s[j].node
}

/// The positions, in order, of the records whose parent identity is `ident`.
pub open spec fn child_indices(s: Seq<NodeV>, ident: Seq<char>) -> Seq<usize>
    decreases s.len(),
{
    if s.len() == 0 {
        Seq::empty()
    } else {
        let prefix = child_indices(s.drop_last(), ident);
        if s.last().parent_node == Some(ident) {
            prefix.push((s.len() - 1) as usize)
        } else {
            prefix
        }
    }
}

/// The `pid` (position + 1) of the last non-leaf record whose identity is
/// `p`, or `None` when no non-leaf record carries that identity.
pub open spec fn parent_pid(s: Seq<NodeV>, p: Seq<char>) -> Option<usize>
    decreases s.len(),
{
    if s.len() == 0 {
        None
    } else if !s.last().leaf && s.last().node == p {
        Some(s.len() as usize)
    } else {
        parent_pid(s.drop_last(), p)
    }
}

/// Every child position returned by `child_indices` lies inside the
/// collection.
pub proof fn lemma_child_indices_bounds(s: Seq<NodeV>, ident: Seq<char>)
    ensures
        forall|k: int|
            0 <= k < child_indices(s, ident).len() ==> #[trigger] child_indices(s, ident)[k]
                < s.len(),
    decreases s.len(),
{
    if s.len() > 0 {
        lemma_child_indices_bounds(s.drop_last(), ident);
        let pre = child_indices(s.drop_last(), ident);
        let cur = child_indices(s, ident);
        assert forall|k: int| 0 <= k < cur.len() implies cur[k] < s.len() by {
            if k < pre.len() {
                assert(cur[k] == pre[k]);
            }
        }
    }
}

/// Every record in a child list names a parent: its parent identity is
/// present.
pub proof fn lemma_child_indices_parent(s: Seq<NodeV>, ident: Seq<char>)
    requires
        s.len() <= usize::MAX,
    ensures
        forall|k: int|
            0 <= k < child_indices(s, ident).len() ==> s[#[trigger] child_indices(s, ident)[k] as int].parent_node is Some,
    decreases s.len(),
{
    if s.len() > 0 {
        lemma_child_indices_parent(s.drop_last(), ident);
        lemma_child_indices_bounds(s.drop_last(), ident);
        assert forall|k: int| 0 <= k < child_indices(s, ident).len() implies s[#[trigger] child_indices(
            s,
            ident,
        )[k] as int].parent_node is Some by {
            if k < child_indices(s.drop_last(), ident).len() {
                assert(child_indices(s, ident)[k] == child_indices(s.drop_last(), ident)[k]);
                assert(s.drop_last()[child_indices(s.drop_last(), ident)[k] as int].parent_node is Some);
                assert(s.drop_last()[child_indices(s.drop_last(), ident)[k] as int] == s[child_indices(
                    s.drop_last(),
                    ident,
                )[k] as int]);
            } else {
                assert(s.last().parent_node == Some(ident));
                assert(child_indices(s, ident)[k] == (s.len() - 1) as usize);
                assert(s[s.len() - 1] == s.last());
            }
        }
    }
}

/// Collects the positions of the records whose parent identity is `ident`.
pub(crate) fn children_of(nodes: &Vec<Node>, ident: &String) -> (r: Vec<usize>)
    ensures
        r@ == child_indices(nodes_view(nodes@), ident@),
{
    let ghost s = nodes_view(nodes@);
    let mut r: Vec<usize> = Vec::new();
    let mut j: usize = 0;
    while j < nodes.len()
        invariant
            j <= nodes.len(),
            s == nodes_view(nodes@),
            r@ == child_indices(s.take(j as int), ident@),
        decreases nodes.len() - j,
    {
        proof {
            assert(s.take(j + 1).drop_last() =~= s.take(j as int));
            assert(s.take(j + 1).last() == s[j as int]);
            assert(s[j as int] == nodes@[j as int]@);
        }
        let matched: bool = match &nodes[j].parent_node {
            Some(p) => *p == *ident,
            None => false,
        };
        if matched {
            r.push(j);
        }
        j += 1;
    }
    proof {
        assert(s.take(nodes@.len() as int) =~= s);
    }
    r
}

/// Finds the `pid` of the last non-leaf record whose identity is `p`.
pub(crate) fn find_parent_pid(nodes: &Vec<Node>, p: &String) -> (r: Option<usize>)
    ensures
        r == parent_pid(nodes_view(nodes@), p@),
{
    let ghost s = nodes_view(nodes@);
    let mut j: usize = nodes.len();
    proof {
        assert(s.take(j as int) =~= s);
    }
    while j > 0
        invariant
            j <= nodes.len(),
            s == nodes_view(nodes@),
            parent_pid(s, p@) == parent_pid(s.take(j as int), p@),
        decreases j,
    {
        j -= 1;
        proof {
            assert(s.take(j + 1).drop_last() =~= s.take(j as int));
            assert(s.take(j + 1).last() == s[j as int]);
            assert(s[j as int] == nodes@[j as int]@);
        }
        if !nodes[j].leaf && nodes[j].node == *p {
            return Some(j + 1);
        }
    }
    proof {
        assert(s.take(0) =~= Seq::<NodeV>::empty());
    }
    None
}

/// Idempotence of the DAG detector: the answer is a function of the
/// collection's image and of nothing else, so running the detector twice on
/// the same unmodified collection yields the same boolean (each run returns
/// `spec_is_dag` of the image, by `is_dag`'s contract).
pub proof fn lemma_is_dag_idempotent(a: GraphV, b: GraphV)
    requires
        a.nodes == b.nodes,
    ensures
        spec_is_dag(a.nodes) == spec_is_dag(b.nodes),
{
}

/// Spec-level image of a [`Graph`].
pub ghost struct GraphV {
    pub nodes: Seq<NodeV>,
    pub root: int,
}

impl GraphV {
    /// Well-formedness: the recorded root position lies inside the collection.
    /// The constructor establishes it and every transform preserves it.
    pub open spec fn wf(&self) -> bool {
        0 <= self.root < self.nodes.len()
    }
}

/// A node collection together with the position of its root record.
#[derive(Debug)]
pub struct Graph {
    pub nodes: Vec<Node>,
    pub root: usize,
}

impl View for Graph {
    type V = GraphV;

    open spec fn view(&self) -> GraphV {
        GraphV { nodes: nodes_view(self.nodes@), root: self.root as int }
    }
}

impl Graph {
    /// Validates the collection and records the root position.
    ///
    /// Succeeds exactly when one record lacks a parent identity; reports
    /// `MultipleRootNodeError` when a second such record exists and
    /// `RootNodeNotFoundError` when none does.
    pub fn new(nodes: Vec<Node>) -> (r: Result<Graph, Error>)
        ensures
            match r {
                Ok(g) => {
                    &&& g.nodes == nodes
                    &&& g@.wf()
                    &&& is_root(g@.nodes[g@.root])
                    &&& forall|i: int|
                        0 <= i < g@.nodes.len() && i != g@.root ==> !is_root(g@.nodes[i])
                },
                Err(e) => match e@ {
                    ErrorV::MultipleRootNode => exists|i: int, j: int|
                        0 <= i < j < nodes@.len() && is_root(#[trigger] nodes@[i]@)
                            && is_root(#[trigger] nodes@[j]@),
                    ErrorV::RootNodeNotFound => forall|i: int|
                        0 <= i < nodes@.len() ==> !is_root(#[trigger] nodes@[i]@),
                    _ => false,
                },
            },
    {
        let ghost s = nodes_view(nodes@);
        let mut root: Option<usize> = None;
        let mut i: usize = 0;
        while i < nodes.len()
            invariant
                i <= nodes.len(),
                s == nodes_view(nodes@),
                match root {
                    Some(k) => {
                        &&& k < i
                        &&& is_root(s[k as int])
                        &&& forall|j: int| 0 <= j < i && j != k ==> !is_root(s[j])
                    },
                    None => forall|j: int| 0 <= j < i ==> !is_root(s[j]),
                },
            decreases nodes.len() - i,
        {
            assert(s[i as int] == nodes@[i as int]@);
            if nodes[i].parent_node.is_none() {
                if root.is_none() {
                    root = Some(i);
                } else {
                    return Err(Error::MultipleRootNodeError());
                }
            }
            i += 1;
        }

        match root {
            Some(k) => Ok(Graph { nodes, root: k }),
            None => {
                assert forall|j: int| 0 <= j < nodes@.len() implies !is_root(
                    #[trigger] nodes@[j]@,
                ) by {
                    assert(nodes@[j]@ == s[j]);
                }
                Err(Error::RootNodeNotFoundError())
            },
        }
    }

    /// Reports whether some non-leaf identity occurs more than once among the
    /// non-leaf records. Reads the collection only, so repeated runs on an
    /// unmodified collection always agree.
    pub fn is_dag(&self) -> (r: bool)
        ensures
            r == spec_is_dag(self@.nodes),
    {
        let ghost s = self@.nodes;
        let n = self.nodes.len();
        let mut i: usize = 0;
        while i < n
            invariant
                i <= n,
                n == self.nodes.len(),
                s == self@.nodes,
                forall|i0: int, j0: int|
                    0 <= i0 < j0 < s.len() && i0 < i ==> !(!s[i0].leaf && !s[j0].leaf
                        && s[i0].node == s[j0].node),
            decreases n - i,
        {
            if !self.nodes[i].leaf {
                let mut j: usize = i + 1;
                while j < n
                    invariant
                        i < j <= n,
                        n == self.nodes.len(),
                        s == self@.nodes,
                        !s[i as int].leaf,
                        forall|j0: int|
                            i < j0 < j ==> !(!s[j0].leaf && s[i as int].node == s[j0].node),
                    decreases n - j,
                {
                    assert(s[j as int] == self.nodes@[j as int]@);
                    if !self.nodes[j].leaf && self.nodes[i].node == self.nodes[j].node {
                        return true;
                    }
                    j += 1;
                }
            }
            i += 1;
        }
        false
    }

    /// Builds the child adjacency lists: for each record, the positions of
    /// the records naming its identity as their parent. Records sharing an
    /// identity share the same list.
    pub fn build_child_map(&self) -> (r: Vec<Vec<usize>>)
        ensures
            r@.len() == self@.nodes.len(),
            forall|i: int|
                0 <= i < r@.len() ==> #[trigger] r@[i]@ == child_indices(
                    self@.nodes,
                    self@.nodes[i].node,
                ),
    {
        let ghost s = self@.nodes;
        let mut r: Vec<Vec<usize>> = Vec::new();
        let mut i: usize = 0;
        while i < self.nodes.len()
            invariant
                i <= self.nodes.len(),
                s == self@.nodes,
                r@.len() == i,
                forall|k: int|
                    0 <= k < i ==> #[trigger] r@[k]@ == child_indices(s, s[k].node),
            decreases self.nodes.len() - i,
        {
            proof {
                assert(s[i as int] == self.nodes@[i as int]@);
            }
            let kids = children_of(&self.nodes, &self.nodes[i].node);
            r.push(kids);
            i += 1;
        }
        r
    }
}

} // verus!
