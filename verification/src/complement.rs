//! The complementing pass: above every record a synthetic non-leaf
//! "classification" wrapper is inserted and the record itself becomes a leaf
//! child of its wrapper; a wrapper pair that was already emitted (same
//! identity and parent identity) is not emitted again.

use vstd::prelude::*;

use crate::data::{nodes_view, Graph, Node, NodeV};
use crate::error::Error;
use crate::ident::{wrapped, wrapper_ident};

verus! {

/// A record with identity `ident` under parent `parent` was already emitted.
pub open spec fn pair_present(out: Seq<NodeV>, ident: Seq<char>, parent: Option<Seq<char>>) -> bool {
    exists|k: int|
        0 <= k < out.len() && (#[trigger] out[k]).node == ident && out[k].parent_node == parent
}

/// Appends `n` unless a record with its identity and parent identity was
/// already emitted.
pub open spec fn push_unless_present(out: Seq<NodeV>, n: NodeV) -> Seq<NodeV> {
    if pair_present(out, n.node, n.parent_node) {
        out
    } else {
        out.push(n)
    }
}

/// The classification wrapper for a record: wrapper identity, wrapper
/// parent identity (absent on the root), not a leaf.
pub open spec fn wrapper_of(n: NodeV) -> NodeV {
    NodeV {
        node: wrapper_ident(n.node),
        parent_node: match n.parent_node {
            Some(p) => Some(wrapper_ident(p)),
            None => None,
        },
        leaf: false,
        ..n
    }
}

/// The record itself, demoted to a leaf child of its wrapper.
pub open spec fn leaf_of(n: NodeV) -> NodeV {
    NodeV { parent_node: Some(wrapper_ident(n.node)), leaf: true, ..n }
}

/// The complemented collection for the first `i` input records.
pub open spec fn complement_upto(s: Seq<NodeV>, i: int) -> Seq<NodeV>
    decreases i,
{
    if i <= 0 {
        Seq::empty()
    } else {
        let out = complement_upto(s, i - 1);
        push_unless_present(push_unless_present(out, wrapper_of(s[i - 1])), leaf_of(s[i - 1]))
    }
}

/// The complemented collection: wrapper and leaf for every input record in
/// order, duplicates by (identity, parent identity) dropped.
pub open spec fn complement_seq(s: Seq<NodeV>) -> Seq<NodeV> {
    complement_upto(s, s.len() as int)
}

/// No two records of `out` share both identity and parent identity.
pub open spec fn distinct_pairs(out: Seq<NodeV>) -> bool {
    forall|k: int, l: int|
        0 <= k < l < out.len() ==> !((#[trigger] out[k]).node == (#[trigger] out[l]).node
            && out[k].parent_node == out[l].parent_node)
}

proof fn lemma_push_unless_present_distinct(out: Seq<NodeV>, n: NodeV)
    requires
        distinct_pairs(out),
    ensures
        distinct_pairs(push_unless_present(out, n)),
{
    if !pair_present(out, n.node, n.parent_node) {
        let res = out.push(n);
        assert forall|k: int, l: int| 0 <= k < l < res.len() implies !((#[trigger] res[k]).node
            == (#[trigger] res[l]).node && res[k].parent_node == res[l].parent_node) by {
            if l == out.len() as int {
                assert(res[l] == n);
                if res[k].node == n.node && res[k].parent_node == n.parent_node {
                    assert(out[k] == res[k]);
                    assert(pair_present(out, n.node, n.parent_node));
                }
            } else {
                assert(res[k] == out[k]);
                assert(res[l] == out[l]);
            }
        }
    }
}

proof fn lemma_complement_upto_distinct(s: Seq<NodeV>, i: int)
    ensures
        distinct_pairs(complement_upto(s, i)),
    decreases i,
{
    if i <= 0 {
        assert(distinct_pairs(Seq::<NodeV>::empty()));
    } else {
        lemma_complement_upto_distinct(s, i - 1);
        lemma_push_unless_present_distinct(complement_upto(s, i - 1), wrapper_of(s[i - 1]));
        lemma_push_unless_present_distinct(
            push_unless_present(complement_upto(s, i - 1), wrapper_of(s[i - 1])),
            leaf_of(s[i - 1]),
        );
    }
}

/// Deduplication law of the complementing pass: the complemented collection
/// never holds two records sharing both identity and parent identity. In
/// particular, when two sibling leaves share identity and parent identity,
/// only one wrapper (and one demoted leaf) is emitted for the pair.
pub proof fn lemma_complement_distinct_pairs(s: Seq<NodeV>)
    ensures
        distinct_pairs(complement_seq(s)),
{
    lemma_complement_upto_distinct(s, s.len() as int);
}

proof fn lemma_complement_upto_nonempty(s: Seq<NodeV>, i: int)
    requires
        1 <= i,
    ensures
        complement_upto(s, i).len() >= 1,
    decreases i,
{
    if i == 1 {
        assert(!pair_present(Seq::<NodeV>::empty(), wrapper_of(s[0]).node, wrapper_of(s[0]).parent_node));
    } else {
        lemma_complement_upto_nonempty(s, i - 1);
    }
}

/// Appends the record unless its (identity, parent identity) pair was
/// already emitted.
fn push_unless_exist(out: &mut Vec<Node>, n: Node)
    ensures
        nodes_view(final(out)@) == push_unless_present(nodes_view(old(out)@), n@),
{
    let ghost o = nodes_view(out@);
    let mut k: usize = 0;
    let mut found: bool = false;
    while k < out.len()
        invariant
            k <= out@.len(),
            o == nodes_view(out@),
            found == pair_present(o.take(k as int), n@.node, n@.parent_node),
        decreases out@.len() - k,
    {
        if !found {
            proof {
                assert(o[k as int] == out@[k as int]@);
            }
            let same_ident = out[k].node == n.node;
            let same_parent = match (&out[k].parent_node, &n.parent_node) {
                (Some(a), Some(b)) => *a == *b,
                (None, None) => true,
                _ => false,
            };
            if same_ident && same_parent {
                found = true;
            }
            proof {
                assert(o.take(k + 1).drop_last() =~= o.take(k as int));
                assert(o.take(k + 1).last() == o[k as int]);
                if found {
                    assert(pair_present(o.take(k + 1), n@.node, n@.parent_node));
                } else {
                    assert forall|t: int| 0 <= t < k + 1 implies !((#[trigger] o.take(k + 1)[t]).node
                        == n@.node && o.take(k + 1)[t].parent_node == n@.parent_node) by {
                        if t < k {
                            assert(o.take(k as int)[t] == o.take(k + 1)[t]);
                            assert(!pair_present(o.take(k as int), n@.node, n@.parent_node));
                        }
                    }
                }
            }
        } else {
            proof {
                assert(o.take(k + 1).drop_last() =~= o.take(k as int));
                assert(pair_present(o.take(k + 1), n@.node, n@.parent_node)) by {
                    let w = choose|t: int|
                        0 <= t < k && (#[trigger] o.take(k as int)[t]).node == n@.node && o.take(
                            k as int,
                        )[t].parent_node == n@.parent_node;
                    assert(o.take(k + 1)[w] == o.take(k as int)[w]);
                }
            }
        }
        k += 1;
    }
    proof {
        assert(o.take(out@.len() as int) =~= o);
    }
    if !found {
        let ghost nv = n@;
        out.push(n);
        proof {
            assert(nodes_view(out@) =~= o.push(nv));
        }
    }
}

impl Graph {
    /// Inserts a classification wrapper above every record and demotes the
    /// record to a leaf child of its wrapper, skipping wrapper/leaf records
    /// whose (identity, parent identity) pair was already emitted. The
    /// root's wrapper comes first, so position 0 is the new root.
    pub fn complement_leaf(&self) -> (r: Result<Graph, Error>)
        requires
            self@.wf(),
        ensures
            match r {
                Ok(g) => {
                    &&& g@.nodes == complement_seq(self@.nodes)
                    &&& g.root == 0
                    &&& g@.wf()
                },
                Err(e) => false,
            },
    {
        let ghost s = self@.nodes;
        let mut out: Vec<Node> = Vec::new();
        let mut i: usize = 0;
        proof {
            assert(nodes_view(out@) =~= complement_upto(s, 0));
        }
        while i < self.nodes.len()
            invariant
                i <= self.nodes@.len(),
                s == self@.nodes,
                nodes_view(out@) == complement_upto(s, i as int),
            decreases self.nodes@.len() - i,
        {
            proof {
                assert(s[i as int] == self.nodes@[i as int]@);
            }
            let n = &self.nodes[i];
            let mut classification = n.duplicate();
            let mut leafn = n.duplicate();

            let w = wrapped(&classification.node);
            classification.node = w;
            let wp = match &classification.parent_node {
                Some(p) => Some(wrapped(p)),
                None => None,
            };
            classification.parent_node = wp;
            classification.leaf = false;
            proof {
                assert(classification@ == wrapper_of(s[i as int]));
            }

            leafn.parent_node = Some(classification.node.clone());
            leafn.leaf = true;
            proof {
                assert(leafn@ == leaf_of(s[i as int]));
            }

            push_unless_exist(&mut out, classification);
            push_unless_exist(&mut out, leafn);
            i += 1;
        }
        proof {
            lemma_complement_upto_nonempty(s, s.len() as int);
        }
        Ok(Graph { nodes: out, root: 0 })
    }
}

} // verus!
