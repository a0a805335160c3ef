//! The unfolding pass: rewrites a collection whose non-leaf identities are
//! shared (a DAG) into a tree by duplicating every subtree once per reaching
//! edge, in breadth-first emission order.
//!
//! The pass is specified as a small-step machine: one step takes the next
//! emitted record and appends a copy of each of its children. Copies of a
//! non-leaf record after the first are renamed with a numeric suffix and
//! remember their pre-rename identity in `origin`.

use vstd::prelude::*;

use crate::data::{child_indices, lemma_child_indices_bounds, nodes_view, Graph, Node, NodeV};
use crate::error::{Error, ErrorV};
use crate::ident::{renamed, renamed_ident};

verus! {

/// The machine state: for every emitted record its position in the input
/// (`origs`), the emitted records themselves, and how many of them have had
/// their children processed (`head`).
pub ghost struct UnfoldState {
    pub origs: Seq<usize>,
    pub nodes: Seq<NodeV>,
    pub head: int,
}

/// How many of the records emitted through an edge so far (positions 1 and
/// up; the root at position 0 was not emitted through an edge) came from an
/// input record whose identity is `ident`.
pub open spec fn count_ident(input: Seq<NodeV>, origs: Seq<usize>, ident: Seq<char>) -> nat
    decreases origs.len(),
{
    if origs.len() <= 1 {
        0
    } else {
        count_ident(input, origs.drop_last(), ident) + if input[origs.last() as int].node
            == ident {
            1nat
        } else {
            0nat
        }
    }
}

/// Appends the copy emitted for one edge: from the record emitted at
/// position `parent_new` to the input record at position `j`.
pub open spec fn emit_child(input: Seq<NodeV>, st: UnfoldState, j: usize, parent_new: int) -> UnfoldState {
    let b = count_ident(input, st.origs, input[j as int].node);
    let base = input[j as int];
    let with_parent = NodeV { parent_node: Some(st.nodes[parent_new].node), ..base };
    let emitted = if !base.leaf && b != 0 {
        NodeV {
            origin: Some(base.node),
            node: renamed_ident(base.node, b),
            ..with_parent
        }
    } else {
        with_parent
    };
    UnfoldState { origs: st.origs.push(j), nodes: st.nodes.push(emitted), head: st.head }
}

/// Appends the copies for the first `k` edges of `kids`.
pub open spec fn emit_children(
    input: Seq<NodeV>,
    st: UnfoldState,
    kids: Seq<usize>,
    parent_new: int,
    k: int,
) -> UnfoldState
    decreases k,
{
    if k <= 0 {
        st
    } else {
        emit_child(input, emit_children(input, st, kids, parent_new, k - 1), kids[k - 1], parent_new)
    }
}

/// The machine has emitted the children of every emitted record.
pub open spec fn unfold_terminal(st: UnfoldState) -> bool {
    st.head >= st.nodes.len()
}

/// One step: process the record emitted at position `head` — append a copy
/// of each child of its input record — and advance `head`.
pub open spec fn unfold_step(input: Seq<NodeV>, st: UnfoldState) -> UnfoldState {
    if unfold_terminal(st) {
        st
    } else {
        let kids = child_indices(input, input[st.origs[st.head] as int].node);
        let st2 = emit_children(input, st, kids, st.head, kids.len() as int);
        UnfoldState { head: st.head + 1, ..st2 }
    }
}

/// The machine after at most `fuel` steps.
pub open spec fn unfold_run(input: Seq<NodeV>, st: UnfoldState, fuel: nat) -> UnfoldState
    decreases fuel,
{
    if fuel == 0 || unfold_terminal(st) {
        st
    } else {
        unfold_run(input, unfold_step(input, st), (fuel - 1) as nat)
    }
}

/// The starting state: the root record emitted, nothing processed.
pub open spec fn unfold_init(input: Seq<NodeV>, root: int) -> UnfoldState {
    UnfoldState { origs: seq![root as usize], nodes: seq![input[root]], head: 0 }
}

/// The machine started on `input` from `root`, after at most `fuel` steps.
pub open spec fn unfold_result(input: Seq<NodeV>, root: int, fuel: nat) -> UnfoldState {
    unfold_run(input, unfold_init(input, root), fuel)
}

/// Within `fuel` steps the machine finishes, and `out` is what it emitted.
pub open spec fn unfold_complete(
    input: Seq<NodeV>,
    root: int,
    fuel: nat,
    out: Seq<NodeV>,
) -> bool {
    let fin = unfold_result(input, root, fuel);
    unfold_terminal(fin) && out == fin.nodes
}

/// Running one more step from a not-yet-terminal state advances the run by
/// one application of `unfold_step`.
proof fn lemma_unfold_run_snoc(input: Seq<NodeV>, st: UnfoldState, fuel: nat)
    requires
        !unfold_terminal(unfold_run(input, st, fuel)),
    ensures
        unfold_run(input, st, fuel + 1) == unfold_step(input, unfold_run(input, st, fuel)),
    decreases fuel,
{
    if fuel == 0 {
        assert(unfold_run(input, st, fuel) == st);
        assert(!unfold_terminal(st));
        assert(unfold_run(input, st, fuel + 1) == unfold_run(
            input,
            unfold_step(input, st),
            (fuel + 1 - 1) as nat,
        ));
    } else if !unfold_terminal(st) {
        lemma_unfold_run_snoc(input, unfold_step(input, st), (fuel - 1) as nat);
        assert(unfold_run(input, st, fuel) == unfold_run(
            input,
            unfold_step(input, st),
            (fuel - 1) as nat,
        ));
        assert(unfold_run(input, st, fuel + 1) == unfold_run(
            input,
            unfold_step(input, st),
            fuel,
        ));
    }
}

/// A terminal state stays where it is however much more fuel it gets.
proof fn lemma_unfold_run_stable(input: Seq<NodeV>, st: UnfoldState, fuel: nat, more: nat)
    requires
        fuel <= more,
        unfold_terminal(unfold_run(input, st, fuel)),
    ensures
        unfold_run(input, st, more) == unfold_run(input, st, fuel),
    decreases fuel,
{
    if fuel > 0 && !unfold_terminal(st) {
        lemma_unfold_run_stable(input, unfold_step(input, st), (fuel - 1) as nat, (more - 1) as nat);
    }
}

/// Determinism of the unfolding pass: whenever the machine finishes within
/// two step budgets, it has emitted the same collection under both — the
/// emitted collection is a function of the input and the root alone.
pub proof fn lemma_unfold_result_unique(input: Seq<NodeV>, root: int, fuel1: nat, fuel2: nat)
    requires
        unfold_terminal(unfold_result(input, root, fuel1)),
        unfold_terminal(unfold_result(input, root, fuel2)),
    ensures
        unfold_result(input, root, fuel1) == unfold_result(input, root, fuel2),
{
    let init = unfold_init(input, root);
    if fuel1 <= fuel2 {
        lemma_unfold_run_stable(input, init, fuel1, fuel2);
    } else {
        lemma_unfold_run_stable(input, init, fuel2, fuel1);
    }
}

/// A machine state that bookkeeping keeps consistent: one input position
/// per emitted record, every one inside the input.
pub open spec fn unfold_wf(input: Seq<NodeV>, st: UnfoldState) -> bool {
    &&& st.origs.len() == st.nodes.len()
    &&& forall|k: int| 0 <= k < st.origs.len() ==> (#[trigger] st.origs[k]) < input.len()
}

/// The naming discipline of the record emitted at position `k` (1 and up):
/// counting the earlier emissions whose input record carries the same
/// identity, a leaf or a first occurrence keeps identity and origin
/// unchanged, and every later non-leaf occurrence `b` carries the renamed
/// identity and its pre-rename identity in `origin`.
pub open spec fn emission_named(input: Seq<NodeV>, st: UnfoldState, k: int) -> bool {
    let base = input[st.origs[k] as int];
    let b = count_ident(input, st.origs.take(k), base.node);
    if !base.leaf && b != 0 {
        st.nodes[k].node == renamed_ident(base.node, b) && st.nodes[k].origin == Some(base.node)
    } else {
        st.nodes[k].node == base.node && st.nodes[k].origin == base.origin
    }
}

/// Every emitted record but the root copy obeys the naming discipline.
pub open spec fn unfold_named(input: Seq<NodeV>, st: UnfoldState) -> bool {
    forall|k: int| 1 <= k < st.nodes.len() ==> #[trigger] emission_named(input, st, k)
}

proof fn lemma_emit_child_preserves(input: Seq<NodeV>, st: UnfoldState, j: usize, parent_new: int)
    requires
        unfold_wf(input, st),
        unfold_named(input, st),
        (j as int) < input.len(),
        st.nodes.len() >= 1,
    ensures
        unfold_wf(input, emit_child(input, st, j, parent_new)),
        unfold_named(input, emit_child(input, st, j, parent_new)),
{
    let st2 = emit_child(input, st, j, parent_new);
    let newk = st.nodes.len() as int;
    assert forall|k: int| 1 <= k < st2.nodes.len() implies #[trigger] emission_named(
        input,
        st2,
        k,
    ) by {
        assert(st2.origs.take(k) =~= st.origs.take(k));
        if k < newk {
            assert(st2.origs[k] == st.origs[k]);
            assert(st2.nodes[k] == st.nodes[k]);
            assert(emission_named(input, st, k));
        } else {
            assert(st2.origs[k] == j);
            assert(st2.origs.take(k) =~= st.origs);
        }
    }
}

proof fn lemma_emit_children_preserves(
    input: Seq<NodeV>,
    st: UnfoldState,
    kids: Seq<usize>,
    parent_new: int,
    t: int,
)
    requires
        unfold_wf(input, st),
        unfold_named(input, st),
        t <= kids.len(),
        forall|u: int| 0 <= u < kids.len() ==> (#[trigger] kids[u]) < input.len(),
        st.nodes.len() >= 1,
    ensures
        unfold_wf(input, emit_children(input, st, kids, parent_new, t)),
        unfold_named(input, emit_children(input, st, kids, parent_new, t)),
        emit_children(input, st, kids, parent_new, t).nodes.len() >= st.nodes.len(),
        emit_children(input, st, kids, parent_new, t).head == st.head,
    decreases t,
{
    if t > 0 {
        lemma_emit_children_preserves(input, st, kids, parent_new, t - 1);
        lemma_emit_child_preserves(
            input,
            emit_children(input, st, kids, parent_new, t - 1),
            kids[t - 1],
            parent_new,
        );
    }
}

proof fn lemma_unfold_step_preserves(input: Seq<NodeV>, st: UnfoldState)
    requires
        unfold_wf(input, st),
        unfold_named(input, st),
        st.nodes.len() >= 1,
        st.head >= 0,
    ensures
        unfold_wf(input, unfold_step(input, st)),
        unfold_named(input, unfold_step(input, st)),
        unfold_step(input, st).nodes.len() >= 1,
        unfold_step(input, st).head >= 0,
{
    if !unfold_terminal(st) {
        let kids = child_indices(input, input[st.origs[st.head] as int].node);
        lemma_child_indices_bounds(input, input[st.origs[st.head] as int].node);
        lemma_emit_children_preserves(input, st, kids, st.head, kids.len() as int);
        let st2 = emit_children(input, st, kids, st.head, kids.len() as int);
        let st3 = unfold_step(input, st);
        assert(st3.origs == st2.origs && st3.nodes == st2.nodes);
        assert forall|k: int| 1 <= k < st3.nodes.len() implies #[trigger] emission_named(
            input,
            st3,
            k,
        ) by {
            assert(emission_named(input, st2, k));
        }
    }
}

proof fn lemma_unfold_run_preserves(input: Seq<NodeV>, st: UnfoldState, fuel: nat)
    requires
        unfold_wf(input, st),
        unfold_named(input, st),
        st.nodes.len() >= 1,
        st.head >= 0,
    ensures
        unfold_wf(input, unfold_run(input, st, fuel)),
        unfold_named(input, unfold_run(input, st, fuel)),
    decreases fuel,
{
    if fuel != 0 && !unfold_terminal(st) {
        lemma_unfold_step_preserves(input, st);
        lemma_unfold_run_preserves(input, unfold_step(input, st), (fuel - 1) as nat);
    }
}

/// Naming law of the unfolding pass: in every state the machine reaches —
/// in particular in the collection `dag_to_tree` returns — each record
/// emitted after the root obeys the naming discipline of
/// [`emission_named`]. So when a non-leaf identity is reached by exactly
/// two edges, its copies are the unchanged identity (origin untouched) and
/// the identity with suffix 1 (origin set to the identity), in that order.
pub proof fn lemma_unfold_naming(input: Seq<NodeV>, root: int, fuel: nat)
    requires
        0 <= root < input.len(),
    ensures
        unfold_wf(input, unfold_result(input, root, fuel)),
        unfold_named(input, unfold_result(input, root, fuel)),
{
    let init = unfold_init(input, root);
    assert(unfold_wf(input, init));
    assert(unfold_named(input, init));
    lemma_unfold_run_preserves(input, init, fuel);
}

/// Counts the records emitted through an edge so far whose input record has
/// identity `ident`.
fn count_emitted(input: &Vec<Node>, origs: &Vec<usize>, ident: &String) -> (r: usize)
    requires
        origs@.len() >= 1,
        forall|k: int| 0 <= k < origs@.len() ==> #[trigger] origs@[k] < input@.len(),
    ensures
        r as nat == count_ident(nodes_view(input@), origs@, ident@),
{
    let ghost s = nodes_view(input@);
    let mut c: usize = 0;
    let mut t: usize = 1;
    proof {
        assert(count_ident(s, origs@.take(1), ident@) == 0);
    }
    while t < origs.len()
        invariant
            1 <= t <= origs@.len(),
            c <= t,
            s == nodes_view(input@),
            forall|k: int| 0 <= k < origs@.len() ==> #[trigger] origs@[k] < input@.len(),
            c as nat == count_ident(s, origs@.take(t as int), ident@),
        decreases origs@.len() - t,
    {
        proof {
            assert(origs@.take(t + 1).drop_last() =~= origs@.take(t as int));
            assert(origs@.take(t + 1).last() == origs@[t as int]);
            assert(s[origs@[t as int] as int] == input@[origs@[t as int] as int]@);
        }
        if input[origs[t]].node == *ident {
            c += 1;
        }
        t += 1;
    }
    proof {
        assert(origs@.take(origs@.len() as int) =~= origs@);
    }
    c
}

impl Graph {
    /// Unfolds a shared-substructure collection into a tree.
    ///
    /// Starting from the root, the children of every emitted record are
    /// copied in breadth-first order; a non-leaf record reached through a
    /// further edge is renamed with its occurrence count and keeps its
    /// pre-rename identity in `origin`. The result is the machine's emission
    /// sequence with the root at position 0. When the machine cannot finish
    /// within the step limit (a cyclic parent chain), the pass stops with a
    /// `RuntimeError` instead.
    pub fn dag_to_tree(&self) -> (r: Result<Graph, Error>)
        requires
            self@.wf(),
        ensures
            match r {
                Ok(g) => {
                    &&& g.root == 0
                    &&& g@.wf()
                    &&& exists|fuel: nat|
                        #[trigger] unfold_complete(self@.nodes, self@.root, fuel, g@.nodes)
                },
                Err(e) => {
                    &&& e@ == ErrorV::Runtime("unfolding did not finish within the step limit"@)
                    &&& !unfold_terminal(
                        unfold_result(self@.nodes, self@.root, usize::MAX as nat),
                    )
                },
            },
    {
        let ghost input = self@.nodes;
        let ghost root = self@.root;
        let child_map = self.build_child_map();

        let mut nodes: Vec<Node> = Vec::new();
        let mut origs: Vec<usize> = Vec::new();
        nodes.push(self.nodes[self.root].duplicate());
        origs.push(self.root);
        let mut head: usize = 0;
        let mut steps: usize = 0;

        proof {
            assert(origs@ =~= seq![self.root]);
            assert(nodes_view(nodes@) =~= seq![input[root]]);
            assert(UnfoldState { origs: origs@, nodes: nodes_view(nodes@), head: head as int }
                == unfold_result(input, root, 0));
        }

        while head < nodes.len()
            invariant
                input == self@.nodes,
                root == self@.root,
                0 <= root < input.len(),
                child_map@.len() == input.len(),
                forall|i: int|
                    0 <= i < child_map@.len() ==> #[trigger] child_map@[i]@ == child_indices(
                        input,
                        input[i].node,
                    ),
                origs@.len() == nodes@.len(),
                nodes@.len() >= 1,
                head <= nodes@.len(),
                forall|k: int| 0 <= k < origs@.len() ==> #[trigger] origs@[k] < input.len(),
                steps <= usize::MAX,
                (UnfoldState { origs: origs@, nodes: nodes_view(nodes@), head: head as int })
                    == unfold_result(input, root, steps as nat),
            decreases usize::MAX - steps,
        {
            let ghost st_entry = UnfoldState {
                origs: origs@,
                nodes: nodes_view(nodes@),
                head: head as int,
            };
            if steps == usize::MAX {
                return Err(Error::RuntimeError(String::from_str(
                    "unfolding did not finish within the step limit",
                )));
            }

            let orig = origs[head];
            let kids: &Vec<usize> = &child_map[orig];
            proof {
                lemma_child_indices_bounds(input, input[orig as int].node);
                assert(emit_children(input, st_entry, kids@, head as int, 0) == st_entry);
            }

            let mut k: usize = 0;
            while k < kids.len()
                invariant
                    input == self@.nodes,
                    k <= kids@.len(),
                    (orig as int) < input.len(),
                    kids@ == child_indices(input, input[orig as int].node),
                    forall|t: int| 0 <= t < kids@.len() ==> #[trigger] kids@[t] < input.len(),
                    origs@.len() == nodes@.len(),
                    head < nodes@.len(),
                    forall|t: int| 0 <= t < origs@.len() ==> #[trigger] origs@[t] < input.len(),
                    (UnfoldState { origs: origs@, nodes: nodes_view(nodes@), head: head as int })
                        == emit_children(input, st_entry, kids@, head as int, k as int),
                decreases kids@.len() - k,
            {
                let ghost st_cur = UnfoldState {
                    origs: origs@,
                    nodes: nodes_view(nodes@),
                    head: head as int,
                };
                let j = kids[k];
                let b = count_emitted(&self.nodes, &origs, &self.nodes[j].node);
                proof {
                    assert(nodes_view(self.nodes@)[j as int] == self.nodes@[j as int]@);
                }
                let mut node = self.nodes[j].duplicate();
                node.parent_node = Some(nodes[head].node.clone());
                if !node.leaf && b != 0 {
                    node.origin = Some(node.node.clone());
                    let nn = renamed(&node.node, b);
                    node.node = nn;
                }
                let ghost nv = node@;
                nodes.push(node);
                origs.push(j);
                k += 1;
                proof {
                    assert(nodes_view(nodes@) =~= st_cur.nodes.push(nv));
                    assert(UnfoldState {
                        origs: origs@,
                        nodes: nodes_view(nodes@),
                        head: head as int,
                    } == emit_child(input, st_cur, j, head as int));
                }
            }

            head += 1;
            steps += 1;
            proof {
                assert(!unfold_terminal(st_entry));
                lemma_unfold_run_snoc(input, unfold_init(input, root), (steps - 1) as nat);
                assert(unfold_step(input, st_entry) == UnfoldState {
                    origs: origs@,
                    nodes: nodes_view(nodes@),
                    head: head as int,
                });
            }
        }

        proof {
            let fin = UnfoldState { origs: origs@, nodes: nodes_view(nodes@), head: head as int };
            assert(unfold_terminal(fin));
        }
        let g = Graph { nodes, root: 0 };
        proof {
            assert(unfold_complete(input, root, steps as nat, g@.nodes));
            assert(exists|fuel: nat|
                #[trigger] unfold_complete(self@.nodes, self@.root, fuel, g@.nodes));
        }
        Ok(g)
    }
}

} // verus!
