//! The indexing pass: assigns `pid` in collection order, numbers the tree
//! depth-first from the root, giving every visited record its `lft`, `rgt`
//! and `count`, then resolves `parent_id` for every record with a parent
//! identity, failing on the first one that no non-leaf record carries.
//!
//! The walk is specified by a recursive function with explicit fuel; the
//! executable walk carries the same fuel (one unit per level, the
//! collection's length at the root), so a parent chain that cannot belong to
//! a finite tree stops with a `RuntimeError` instead of descending forever.

use vstd::prelude::*;

use crate::data::{
    child_indices, children_of, find_parent_pid, lemma_child_indices_bounds,
    lemma_child_indices_parent, nodes_view, parent_pid, Graph, Node, NodeV,
};
use crate::error::{Error, ErrorV};

verus! {

/// Outcome of a numbering walk: the collection with the fields assigned so
/// far, and either the last number used or the error that stopped the walk.
pub ghost struct FillOut {
    pub nodes: Seq<NodeV>,
    pub res: FillRes,
}

pub ghost enum FillRes {
    Done(int),
    Fail(ErrorV),
}

/// The numbering walk for the record at position `i`, entered with next
/// number `n`: assigns `lft`, walks the children in order, then assigns
/// `rgt` and `count`.
pub open spec fn fill_spec(s: Seq<NodeV>, i: int, n: int, fuel: nat) -> FillOut
    decreases fuel, 1int, 0int,
{
    if fuel == 0 {
        FillOut {
            nodes: s,
            res: FillRes::Fail(ErrorV::Runtime("indexing exceeded the depth limit"@)),
        }
    } else {
        let s1 = s.update(i, NodeV { lft: Some(n as usize), ..s[i] });
        fill_children(s1, i, n, (fuel - 1) as nat)
    }
}

/// The child phase of the walk at position `i`, with `fuel` the fuel handed
/// to each child's walk: every child of the record's identity is walked,
/// then `rgt` and `count` are assigned.
pub open spec fn fill_children(s: Seq<NodeV>, i: int, n: int, fuel: nat) -> FillOut
    decreases fuel, 3int, 0int,
{
    let kids = child_indices(s, s[i].node);
    let out = fill_kids(s, kids, kids.len() as int, n, fuel);
    match out.res {
        FillRes::Done(n2) => if n2 + 1 > usize::MAX as int {
            FillOut {
                nodes: out.nodes,
                res: FillRes::Fail(ErrorV::Runtime("nested-set numbering overflowed"@)),
            }
        } else {
            FillOut {
                nodes: out.nodes.update(
                    i,
                    NodeV {
                        rgt: Some((n2 + 1) as usize),
                        count: Some(kids.len() as usize),
                        ..out.nodes[i]
                    },
                ),
                res: FillRes::Done(n2 + 1),
            }
        },
        FillRes::Fail(_) => out,
    }
}

/// The walks for the first `t` children in `kids`, threading the number.
pub open spec fn fill_kids(s: Seq<NodeV>, kids: Seq<usize>, t: int, n: int, fuel: nat) -> FillOut
    decreases fuel, 2int, t,
{
    if t <= 0 {
        FillOut { nodes: s, res: FillRes::Done(n) }
    } else {
        let prev = fill_kids(s, kids, t - 1, n, fuel);
        match prev.res {
            FillRes::Done(n2) => if n2 + 1 > usize::MAX as int {
                FillOut {
                    nodes: prev.nodes,
                    res: FillRes::Fail(ErrorV::Runtime("nested-set numbering overflowed"@)),
                }
            } else {
                fill_spec(prev.nodes, kids[t - 1] as int, n2 + 1, fuel)
            },
            FillRes::Fail(_) => prev,
        }
    }
}

/// The collection with `pid` assigned in order: position plus one.
pub open spec fn pid_assigned(s: Seq<NodeV>) -> Seq<NodeV> {
    Seq::new(s.len(), |j: int| NodeV { pid: Some((j + 1) as usize), ..s[j] })
}

/// Outcome of the parent-resolution pass: the collection with `parent_id`
/// assigned so far, and the first violation met, if any.
pub ghost struct ResolveOut {
    pub nodes: Seq<NodeV>,
    pub err: Option<ErrorV>,
}

/// Resolves `parent_id` for the first `j` records: each one with a parent
/// identity receives the `pid` of the last non-leaf record carrying that
/// identity; the first unresolved identity stops the pass.
pub open spec fn resolve_parents(s: Seq<NodeV>, j: int) -> ResolveOut
    decreases j,
{
    if j <= 0 {
        ResolveOut { nodes: s, err: None }
    } else {
        let prev = resolve_parents(s, j - 1);
        match prev.err {
            Some(_) => prev,
            None => match prev.nodes[j - 1].parent_node {
                Some(p) => match parent_pid(prev.nodes, p) {
                    Some(pi) => ResolveOut {
                        nodes: prev.nodes.update(
                            j - 1,
                            NodeV { parent_id: Some(pi), ..prev.nodes[j - 1] },
                        ),
                        err: None,
                    },
                    None => ResolveOut {
                        nodes: prev.nodes,
                        err: Some(ErrorV::ParentNodeNotFound(p)),
                    },
                },
                None => prev,
            },
        }
    }
}

/// The whole indexing pass: `pid` assignment, the numbering walk from the
/// root with number 1 and one unit of fuel per record, then parent
/// resolution over every record.
pub open spec fn index_spec(s: Seq<NodeV>, root: int) -> ResolveOut {
    let filled = fill_spec(pid_assigned(s), root, 1, s.len() as nat);
    match filled.res {
        FillRes::Done(nf) => resolve_parents(filled.nodes, filled.nodes.len() as int),
        FillRes::Fail(e) => ResolveOut { nodes: filled.nodes, err: Some(e) },
    }
}

/// The records of the subtree rooted at position `i`, counted once per
/// reaching path and following the child relation for `fuel` levels.
pub open spec fn subtree_size(s: Seq<NodeV>, i: int, fuel: nat) -> nat
    decreases fuel, 1int, 0int,
{
    if fuel == 0 {
        0
    } else {
        let kids = child_indices(s, s[i].node);
        1 + subtree_kids(s, kids, kids.len() as int, (fuel - 1) as nat)
    }
}

/// The summed subtree sizes of the first `t` children in `kids`.
pub open spec fn subtree_kids(s: Seq<NodeV>, kids: Seq<usize>, t: int, fuel: nat) -> nat
    decreases fuel, 2int, t,
{
    if t <= 0 {
        0
    } else {
        subtree_kids(s, kids, t - 1, fuel) + subtree_size(s, kids[t - 1] as int, fuel)
    }
}

/// Two collections of the same length whose records agree on identity,
/// parent identity and leaf flag; the walk only changes the other fields.
pub open spec fn same_structure(a: Seq<NodeV>, b: Seq<NodeV>) -> bool {
    &&& a.len() == b.len()
    &&& forall|j: int|
        0 <= j < a.len() ==> {
            &&& (#[trigger] a[j]).node == (#[trigger] b[j]).node
            &&& a[j].parent_node == b[j].parent_node
            &&& a[j].leaf == b[j].leaf
        }
}

proof fn lemma_same_structure_trans(a: Seq<NodeV>, b: Seq<NodeV>, c: Seq<NodeV>)
    requires
        same_structure(a, b),
        same_structure(b, c),
    ensures
        same_structure(a, c),
{
    assert forall|j: int| 0 <= j < a.len() implies {
        &&& (#[trigger] a[j]).node == (#[trigger] c[j]).node
        &&& a[j].parent_node == c[j].parent_node
        &&& a[j].leaf == c[j].leaf
    } by {
        assert(a[j].node == b[j].node);
        assert(b[j].node == c[j].node);
    }
}

/// Structure-equal collections have the same child lists.
proof fn lemma_child_indices_same(a: Seq<NodeV>, b: Seq<NodeV>, ident: Seq<char>)
    requires
        same_structure(a, b),
    ensures
        child_indices(a, ident) == child_indices(b, ident),
    decreases a.len(),
{
    if a.len() > 0 {
        assert(same_structure(a.drop_last(), b.drop_last()));
        lemma_child_indices_same(a.drop_last(), b.drop_last(), ident);
        assert(a.last().parent_node == b.last().parent_node);
    }
}

/// Structure-equal collections have the same subtree sizes.
proof fn lemma_subtree_size_same(a: Seq<NodeV>, b: Seq<NodeV>, i: int, fuel: nat)
    requires
        same_structure(a, b),
        0 <= i < a.len(),
    ensures
        subtree_size(a, i, fuel) == subtree_size(b, i, fuel),
    decreases fuel, 1int, 0int,
{
    if fuel != 0 {
        let kids = child_indices(a, a[i].node);
        lemma_child_indices_same(a, b, a[i].node);
        lemma_child_indices_bounds(a, a[i].node);
        lemma_subtree_kids_same(a, b, kids, kids.len() as int, (fuel - 1) as nat);
    }
}

proof fn lemma_subtree_kids_same(a: Seq<NodeV>, b: Seq<NodeV>, kids: Seq<usize>, t: int, fuel: nat)
    requires
        same_structure(a, b),
        t <= kids.len(),
        forall|u: int| 0 <= u < kids.len() ==> (#[trigger] kids[u]) < a.len(),
    ensures
        subtree_kids(a, kids, t, fuel) == subtree_kids(b, kids, t, fuel),
    decreases fuel, 2int, t,
{
    if t > 0 {
        lemma_subtree_kids_same(a, b, kids, t - 1, fuel);
        lemma_subtree_size_same(a, b, kids[t - 1] as int, fuel);
    }
}

/// The walk never changes the collection's length.
proof fn lemma_fill_spec_len(s: Seq<NodeV>, i: int, n: int, fuel: nat)
    requires
        0 <= i < s.len(),
    ensures
        fill_spec(s, i, n, fuel).nodes.len() == s.len(),
    decreases fuel, 1int, 0int,
{
    if fuel != 0 {
        let s1 = s.update(i, NodeV { lft: Some(n as usize), ..s[i] });
        lemma_fill_children_len(s1, i, n, (fuel - 1) as nat);
    }
}

proof fn lemma_fill_children_len(s: Seq<NodeV>, i: int, n: int, fuel: nat)
    requires
        0 <= i < s.len(),
    ensures
        fill_children(s, i, n, fuel).nodes.len() == s.len(),
    decreases fuel, 3int, 0int,
{
    let kids = child_indices(s, s[i].node);
    lemma_child_indices_bounds(s, s[i].node);
    lemma_fill_kids_len(s, kids, kids.len() as int, n, fuel);
}

proof fn lemma_fill_kids_len(s: Seq<NodeV>, kids: Seq<usize>, t: int, n: int, fuel: nat)
    requires
        t <= kids.len(),
        forall|u: int| 0 <= u < kids.len() ==> (#[trigger] kids[u]) < s.len(),
    ensures
        fill_kids(s, kids, t, n, fuel).nodes.len() == s.len(),
    decreases fuel, 2int, t,
{
    if t > 0 {
        lemma_fill_kids_len(s, kids, t - 1, n, fuel);
        let prev = fill_kids(s, kids, t - 1, n, fuel);
        match prev.res {
            FillRes::Done(n2) => {
                if !(n2 + 1 > usize::MAX as int) {
                    lemma_fill_spec_len(prev.nodes, kids[t - 1] as int, n2 + 1, fuel);
                }
            },
            FillRes::Fail(_) => {},
        }
    }
}

/// Once a child walk fails, walking further children changes nothing.
proof fn lemma_fill_kids_fail_stable(s: Seq<NodeV>, kids: Seq<usize>, t: int, t2: int, n: int, fuel: nat)
    requires
        0 <= t <= t2,
        fill_kids(s, kids, t, n, fuel).res is Fail,
    ensures
        fill_kids(s, kids, t2, n, fuel) == fill_kids(s, kids, t, n, fuel),
    decreases t2 - t,
{
    if t2 > t {
        lemma_fill_kids_fail_stable(s, kids, t, t2 - 1, n, fuel);
    }
}

/// Interval law of a single numbering walk: a completed walk entered at
/// record `i` with number `n` returns `n + 2·size − 1` where `size` is the
/// number of records of `i`'s subtree — so the interval `[n, n + 2·size − 1]`
/// it assigns to `i` has odd width, and half of `width − 1` is the number
/// of `i`'s descendants (`size − 1`), not just its direct children. The
/// walk also preserves every record's identity, parent identity and leaf
/// flag, and leaves every parentless record other than `i` untouched.
pub proof fn lemma_fill_spec_done(s: Seq<NodeV>, i: int, n: int, fuel: nat)
    requires
        s.len() <= usize::MAX,
        0 <= i < s.len(),
        fill_spec(s, i, n, fuel).res is Done,
    ensures
        fill_spec(s, i, n, fuel).res == FillRes::Done(n + 2 * subtree_size(s, i, fuel) - 1),
        same_structure(s, fill_spec(s, i, n, fuel).nodes),
        forall|p: int|
            0 <= p < s.len() && (#[trigger] s[p]).parent_node is None && p != i ==> fill_spec(
                s,
                i,
                n,
                fuel,
            ).nodes[p] == s[p],
    decreases fuel, 1int, 0int,
{
    let s2 = s.update(i, NodeV { lft: Some(n as usize), ..s[i] });
    assert(same_structure(s, s2));
    let kids = child_indices(s2, s2[i].node);
    lemma_child_indices_bounds(s2, s2[i].node);
    lemma_child_indices_parent(s2, s2[i].node);
    lemma_fill_kids_done(s2, kids, kids.len() as int, n, (fuel - 1) as nat);
    let out = fill_kids(s2, kids, kids.len() as int, n, (fuel - 1) as nat);
    lemma_same_structure_trans(s, s2, out.nodes);
    lemma_child_indices_same(s, s2, s[i].node);
    assert(same_structure(s2, s));
    lemma_subtree_kids_same(s2, s, kids, kids.len() as int, (fuel - 1) as nat);
    let res = fill_spec(s, i, n, fuel);
    assert(same_structure(out.nodes, res.nodes));
    lemma_same_structure_trans(s, out.nodes, res.nodes);
    assert forall|p: int|
        0 <= p < s.len() && (#[trigger] s[p]).parent_node is None && p != i implies res.nodes[p]
        == s[p] by {
        assert(s2[p] == s[p]);
        assert(out.nodes[p] == s2[p]);
    }
}

/// Completed walks over the first `t` children advance the number by twice
/// their summed subtree sizes.
proof fn lemma_fill_kids_done(s: Seq<NodeV>, kids: Seq<usize>, t: int, n: int, fuel: nat)
    requires
        s.len() <= usize::MAX,
        t <= kids.len(),
        forall|u: int| 0 <= u < kids.len() ==> (#[trigger] kids[u]) < s.len(),
        forall|u: int| 0 <= u < kids.len() ==> s[(#[trigger] kids[u]) as int].parent_node is Some,
        fill_kids(s, kids, t, n, fuel).res is Done,
    ensures
        fill_kids(s, kids, t, n, fuel).res == FillRes::Done(n + 2 * subtree_kids(s, kids, t, fuel)),
        same_structure(s, fill_kids(s, kids, t, n, fuel).nodes),
        forall|p: int|
            0 <= p < s.len() && (#[trigger] s[p]).parent_node is None ==> fill_kids(
                s,
                kids,
                t,
                n,
                fuel,
            ).nodes[p] == s[p],
    decreases fuel, 2int, t,
{
    if t > 0 {
        let prev = fill_kids(s, kids, t - 1, n, fuel);
        lemma_fill_kids_done(s, kids, t - 1, n, fuel);
        let c = kids[t - 1] as int;
        lemma_fill_spec_done(prev.nodes, c, prev.res->Done_0 + 1, fuel);
        lemma_subtree_size_same(s, prev.nodes, c, fuel);
        let fin = fill_spec(prev.nodes, c, prev.res->Done_0 + 1, fuel);
        lemma_same_structure_trans(s, prev.nodes, fin.nodes);
        assert forall|p: int|
            0 <= p < s.len() && (#[trigger] s[p]).parent_node is None implies fin.nodes[p] == s[p] by {
            assert(prev.nodes[p] == s[p]);
            assert(prev.nodes[p].parent_node is None);
            assert(s[c].parent_node is Some);
            assert(p != c);
        }
    }
}

/// Once the resolution pass fails, resolving further records changes
/// nothing.
proof fn lemma_resolve_fail_stable(s: Seq<NodeV>, j: int, j2: int)
    requires
        0 <= j <= j2,
        resolve_parents(s, j).err is Some,
    ensures
        resolve_parents(s, j2) == resolve_parents(s, j),
    decreases j2 - j,
{
    if j2 > j {
        lemma_resolve_fail_stable(s, j, j2 - 1);
    }
}

/// The resolution pass changes `parent_id` alone: every other field of
/// every record keeps its value.
proof fn lemma_resolve_preserves(s: Seq<NodeV>, j: int)
    requires
        j <= s.len(),
    ensures
        resolve_parents(s, j).nodes.len() == s.len(),
        forall|p: int|
            0 <= p < s.len() ==> {
                let t = #[trigger] resolve_parents(s, j).nodes[p];
                &&& t.node == s[p].node
                &&& t.parent_node == s[p].parent_node
                &&& t.leaf == s[p].leaf
                &&& t.lft == s[p].lft
                &&& t.rgt == s[p].rgt
                &&& t.count == s[p].count
                &&& t.pid == s[p].pid
                &&& t.origin == s[p].origin
            },
    decreases j,
{
    if j > 0 {
        lemma_resolve_preserves(s, j - 1);
    }
}

/// Interval law of the nested-set numbering: when the indexing pass
/// completes on a collection whose root record has no parent identity, the
/// root's interval satisfies `lft == 1`, `rgt == 2·size` for `size` the
/// number of records of the root's subtree, so `rgt − lft` is odd and
/// `(rgt − lft − 1) / 2` equals the number of the root's descendants
/// (`size − 1`), not just its direct children; `count` is the number of
/// direct children.
pub proof fn lemma_indexed_intervals(s: Seq<NodeV>, root: int)
    requires
        s.len() <= usize::MAX,
        0 <= root < s.len(),
        s[root].parent_node is None,
        index_spec(s, root).err is None,
    ensures
        ({
            let out = index_spec(s, root);
            let size = subtree_size(s, root, s.len() as nat);
            &&& size >= 1
            &&& 2 * size <= usize::MAX
            &&& out.nodes[root].lft == Some(1usize)
            &&& out.nodes[root].rgt == Some((2 * size) as usize)
            &&& out.nodes[root].count == Some(child_indices(s, s[root].node).len() as usize)
        }),
{
    let sp = pid_assigned(s);
    assert(same_structure(s, sp));
    let fuel = s.len() as nat;
    let filled = fill_spec(sp, root, 1, fuel);
    assert(filled.res is Done);
    lemma_fill_spec_done(sp, root, 1, fuel);
    lemma_subtree_size_same(sp, s, root, fuel);
    let size = subtree_size(s, root, fuel);

    // Walk through the definition once more to read off the root's record.
    let s1 = sp.update(root, NodeV { lft: Some(1usize), ..sp[root] });
    assert(s1[root].parent_node is None);
    let kids = child_indices(s1, s1[root].node);
    lemma_child_indices_bounds(s1, s1[root].node);
    lemma_child_indices_parent(s1, s1[root].node);
    lemma_fill_kids_done(s1, kids, kids.len() as int, 1, (fuel - 1) as nat);
    let out1 = fill_kids(s1, kids, kids.len() as int, 1, (fuel - 1) as nat);
    assert(out1.nodes[root] == s1[root]);
    lemma_child_indices_same(s, s1, s[root].node);
    assert(fuel >= 1);

    // Parent resolution leaves the interval fields untouched.
    lemma_resolve_preserves(filled.nodes, filled.nodes.len() as int);
}
#[verifier::loop_isolation(false)]
fn fill(nodes: &mut Vec<Node>, i: usize, n: usize, fuel: usize) -> (r: Result<usize, Error>)
    requires
        (i as int) < old(nodes)@.len(),
    ensures
        ({
            let out = fill_spec(nodes_view(old(nodes)@), i as int, n as int, fuel as nat);
            &&& nodes_view(final(nodes)@) == out.nodes
            &&& match r {
                Ok(n2) => out.res == FillRes::Done(n2 as int),
                Err(e) => out.res matches FillRes::Fail(ev) && e@ == ev,
            }
        }),
    decreases fuel,
{
    let ghost s0 = nodes_view(old(nodes)@);
    if fuel == 0 {
        return Err(Error::RuntimeError(String::from_str("indexing exceeded the depth limit")));
    }

    nodes[i].lft = Some(n);
    let ghost s2 = nodes_view(nodes@);
    proof {
        assert(s2 =~= s0.update(i as int, NodeV { lft: Some(n), ..s0[i as int] }));
    }

    let ident = nodes[i].node.clone();
    let kids = children_of(nodes, &ident);
    proof {
        assert(ident@ == s2[i as int].node);
        lemma_child_indices_bounds(s2, s2[i as int].node);
    }

    let mut n2: usize = n;
    let mut t: usize = 0;
    while t < kids.len()
        invariant
            t <= kids@.len(),
            1 <= fuel,
            kids@ == child_indices(s2, s2[i as int].node),
            forall|u: int| 0 <= u < kids@.len() ==> #[trigger] kids@[u] < s2.len(),
            nodes@.len() == s2.len(),
            (FillOut { nodes: nodes_view(nodes@), res: FillRes::Done(n2 as int) }) == fill_kids(
                s2,
                kids@,
                t as int,
                n as int,
                (fuel - 1) as nat,
            ),
        decreases kids@.len() - t,
    {
        if n2 == usize::MAX {
            proof {
                lemma_fill_kids_fail_stable(
                    s2,
                    kids@,
                    t + 1,
                    kids@.len() as int,
                    n as int,
                    (fuel - 1) as nat,
                );
            }
            return Err(Error::RuntimeError(String::from_str("nested-set numbering overflowed")));
        }
        let j = kids[t];
        let res = fill(nodes, j, n2 + 1, fuel - 1);
        proof {
            lemma_fill_spec_len(
                fill_kids(s2, kids@, t as int, n as int, (fuel - 1) as nat).nodes,
                j as int,
                n2 + 1,
                (fuel - 1) as nat,
            );
        }
        match res {
            Ok(nn) => {
                n2 = nn;
                t += 1;
            },
            Err(e) => {
                proof {
                    lemma_fill_kids_fail_stable(
                        s2,
                        kids@,
                        t + 1,
                        kids@.len() as int,
                        n as int,
                        (fuel - 1) as nat,
                    );
                }
                return Err(e);
            },
        }
    }

    if n2 == usize::MAX {
        return Err(Error::RuntimeError(String::from_str("nested-set numbering overflowed")));
    }
    let ghost s3 = nodes_view(nodes@);
    nodes[i].rgt = Some(n2 + 1);
    nodes[i].count = Some(kids.len());
    proof {
        assert(nodes_view(nodes@) =~= s3.update(
            i as int,
            NodeV {
                rgt: Some((n2 + 1) as usize),
                count: Some(kids@.len() as usize),
                ..s3[i as int]
            },
        ));
    }
    Ok(n2 + 1)
}

impl Graph {
    /// Assigns `pid` in collection order, numbers the tree from the root —
    /// every visited record gets `lft`, `rgt` and `count` — then resolves
    /// `parent_id` for every record with a parent identity through the last
    /// non-leaf record carrying that identity (`ParentNodeNotFoundError`
    /// when none does). The collection keeps its order: `pid` equals
    /// position plus one, so a final sort by `pid` would be the identity
    /// and is omitted.
    #[verifier::loop_isolation(false)]
    pub fn build_index(&mut self) -> (r: Result<(), Error>)
        requires
            old(self)@.wf(),
        ensures
            final(self).root == old(self).root,
            ({
                let out = index_spec(nodes_view(old(self).nodes@), old(self).root as int);
                &&& nodes_view(final(self).nodes@) == out.nodes
                &&& match r {
                    Ok(u) => out.err is None,
                    Err(e) => out.err matches Some(ev) && e@ == ev,
                }
            }),
    {
        let ghost s0 = nodes_view(self.nodes@);
        let mut i: usize = 0;
        while i < self.nodes.len()
            invariant
                i <= self.nodes@.len(),
                self.nodes@.len() == s0.len(),
                self.root == old(self).root,
                forall|j: int| 0 <= j < i ==> nodes_view(self.nodes@)[j] == pid_assigned(s0)[j],
                forall|j: int| i <= j < s0.len() ==> nodes_view(self.nodes@)[j] == s0[j],
            decreases self.nodes@.len() - i,
        {
            let p = i + 1;
            self.nodes[i].pid = Some(p);
            i += 1;
        }
        proof {
            assert(nodes_view(self.nodes@) =~= pid_assigned(s0));
        }

        let root = self.root;
        let fuel = self.nodes.len();
        match fill(&mut self.nodes, root, 1, fuel) {
            Ok(_) => {},
            Err(e) => {
                return Err(e);
            },
        }

        let ghost sf = nodes_view(self.nodes@);
        let mut j: usize = 0;
        while j < self.nodes.len()
            invariant
                j <= self.nodes@.len(),
                self.nodes@.len() == sf.len(),
                self.root == old(self).root,
                (ResolveOut { nodes: nodes_view(self.nodes@), err: None }) == resolve_parents(
                    sf,
                    j as int,
                ),
            decreases self.nodes@.len() - j,
        {
            let ghost before = nodes_view(self.nodes@);
            let pn: Option<String> = match &self.nodes[j].parent_node {
                Some(q) => Some(q.clone()),
                None => None,
            };
            match pn {
                Some(p) => {
                    match find_parent_pid(&self.nodes, &p) {
                        Some(pi) => {
                            self.nodes[j].parent_id = Some(pi);
                            proof {
                                assert(nodes_view(self.nodes@) =~= before.update(
                                    j as int,
                                    NodeV { parent_id: Some(pi), ..before[j as int] },
                                ));
                            }
                        },
                        None => {
                            proof {
                                lemma_resolve_fail_stable(sf, j + 1, sf.len() as int);
                            }
                            return Err(Error::ParentNodeNotFoundError(p));
                        },
                    }
                },
                None => {},
            }
            j += 1;
        }
        Ok(())
    }
}

} // verus!
