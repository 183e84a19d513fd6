//! The per-branch head tracker: an append-only DAG of changesets labelled
//! with branch names, plus the set of current heads, maintained incrementally
//! as nodes are added. A node is in the head set exactly while it has no
//! child on its own branch; `heads()` further drops nodes with a child on any
//! branch.

use vstd::prelude::*;

use crate::bytes::bytes_eq;
use crate::dag::{parent_wf, Dag, DagNode, DagNodeId};
use vstd::std_specs::cmp::PartialEqSpec;
use crate::oid::HgChangesetId;

verus! {

/// What the tracker records per changeset.
#[derive(Debug)]
pub struct ChangesetInfo {
    pub has_children: bool,
    pub branch: Vec<u8>,
}

/// The tracker.
#[derive(Debug)]
pub struct ChangesetHeads {
    pub dag: Dag<HgChangesetId, ChangesetInfo>,
    pub heads: Vec<DagNodeId>,
}

/// Node at offset `p` is a recorded parent of the node at offset `c`.
pub open spec fn is_parent(
    nodes: Seq<DagNode<HgChangesetId, ChangesetInfo>>,
    p: int,
    c: int,
) -> bool {
    &&& 0 <= p < c < nodes.len()
    &&& ((nodes[c].parent1 matches Some(id) && id.0 - 1 == p) || (nodes[c].parent2 matches Some(
        id,
    ) && id.0 - 1 == p))
}

/// Node at offset `p` has some recorded child.
pub open spec fn has_child(nodes: Seq<DagNode<HgChangesetId, ChangesetInfo>>, p: int) -> bool {
    exists|c: int| is_parent(nodes, p, c)
}

/// Node at offset `p` has a recorded child on the same branch.
pub open spec fn has_same_branch_child(
    nodes: Seq<DagNode<HgChangesetId, ChangesetInfo>>,
    p: int,
) -> bool {
    exists|c: int| is_parent(nodes, p, c) && nodes[c].data.branch@ == nodes[p].data.branch@
}

/// Node at offset `d` descends from the node at offset `a`.
pub open spec fn is_descendant(
    nodes: Seq<DagNode<HgChangesetId, ChangesetInfo>>,
    a: int,
    d: int,
) -> bool
    decreases d when d >= 0
{
    if is_parent(nodes, a, d) {
        true
    } else {
        exists|k: int| 0 <= k < d && is_parent(nodes, k, d) && is_descendant(nodes, a, k)
    }
}

/// The head set holds an entry for offset `p`.
pub open spec fn contains_head(hs: Seq<DagNodeId>, p: int) -> bool {
    exists|k: int| 0 <= k < hs.len() && (#[trigger] hs[k]).0 - 1 == p
}

/// The changesets of those head entries whose node has no child at all.
pub open spec fn spec_filter_heads(
    nodes: Seq<DagNode<HgChangesetId, ChangesetInfo>>,
    hs: Seq<DagNodeId>,
) -> Seq<HgChangesetId>
    decreases hs.len(),
{
    if hs.len() == 0 {
        Seq::empty()
    } else {
        (if 1 <= hs[0].0 <= nodes.len() && !nodes[hs[0].0 - 1].data.has_children {
            seq![nodes[hs[0].0 - 1].node]
        } else {
            Seq::<HgChangesetId>::empty()
        }) + spec_filter_heads(nodes, hs.drop_first())
    }
}

/// The changesets and branches of all head entries.
pub open spec fn spec_branch_heads(
    nodes: Seq<DagNode<HgChangesetId, ChangesetInfo>>,
    hs: Seq<DagNodeId>,
) -> Seq<(HgChangesetId, Seq<u8>)>
    decreases hs.len(),
{
    if hs.len() == 0 {
        Seq::empty()
    } else {
        (if 1 <= hs[0].0 <= nodes.len() {
            seq![(nodes[hs[0].0 - 1].node, nodes[hs[0].0 - 1].data.branch@)]
        } else {
            Seq::<(HgChangesetId, Seq<u8>)>::empty()
        }) + spec_branch_heads(nodes, hs.drop_first())
    }
}

/// The DAG invariant, phrased over the changeset ids themselves: distinct
/// ids, parent handles pointing strictly earlier, handle space not exhausted.
pub open spec fn dag_wf_concrete(nodes: Seq<DagNode<HgChangesetId, ChangesetInfo>>) -> bool {
    &&& nodes.len() <= u32::MAX
    &&& forall|i: int, j: int| 0 <= i < j < nodes.len() ==> !((#[trigger] nodes[i]).node@ == (
    #[trigger] nodes[j]).node@)
    &&& forall|i: int| 0 <= i < nodes.len() ==> parent_wf((#[trigger] nodes[i]).parent1, i)
        && parent_wf(nodes[i].parent2, i)
}

/// The concrete phrasing coincides with the DAG's own invariant.
proof fn lemma_dag_wf_equiv(d: &Dag<HgChangesetId, ChangesetInfo>)
    ensures
        d.wf() <==> dag_wf_concrete(d.nodes@),
{
    if d.wf() {
        assert forall|i: int, j: int| 0 <= i < j < d.nodes@.len() implies !((
        #[trigger] d.nodes@[i]).node@ == (#[trigger] d.nodes@[j]).node@) by {
            assert(!(d.nodes@[i].node.eq_spec(&d.nodes@[j].node)));
        }
    }
    if dag_wf_concrete(d.nodes@) {
        assert forall|i: int, j: int| 0 <= i < j < d.nodes@.len() implies !(
        #[trigger] d.nodes@[i].node.eq_spec(&d.nodes@[j].node)) by {
            assert(!(d.nodes@[i].node@ == d.nodes@[j].node@));
        }
    }
}

/// The tracker's invariant carries the DAG's own.
pub proof fn lemma_heads_dag_wf(h: &ChangesetHeads)
    requires
        h.wf(),
    ensures
        h.dag.wf(),
{
    lemma_dag_wf_equiv(&h.dag);
}

impl ChangesetHeads {
    /// The tracker's invariant: a well-formed DAG, head entries valid and
    /// kept in strictly increasing handle order (so enumeration follows
    /// insertion order), the head set holding exactly the nodes without a
    /// same-branch child, and the `has_children` flag of each node meaning
    /// exactly that some child is recorded.
    pub open spec fn wf(&self) -> bool {
        &&& dag_wf_concrete(self.dag.nodes@)
        &&& forall|k: int| 0 <= k < self.heads@.len() ==> 1 <= (#[trigger] self.heads@[k]).0
            <= self.dag.nodes@.len()
        &&& forall|k1: int, k2: int| 0 <= k1 < k2 < self.heads@.len() ==> (
        #[trigger] self.heads@[k1]).0 < (#[trigger] self.heads@[k2]).0
        &&& forall|p: int| 0 <= p < self.dag.nodes@.len() ==> (contains_head(self.heads@, p)
            <==> !has_same_branch_child(self.dag.nodes@, p))
        &&& forall|p: int| 0 <= p < self.dag.nodes@.len() ==> ((#[trigger] self.dag.nodes@[
        p]).data.has_children <==> has_child(self.dag.nodes@, p))
    }

    /// An empty tracker.
    pub fn new() -> (r: Self)
        ensures
            r.wf(),
            r.dag.nodes@.len() == 0,
            r.heads@.len() == 0,
    {
        ChangesetHeads { dag: Dag::new(), heads: Vec::new() }
    }

    /// Record a changeset with up to two parents and its branch label. The
    /// parents already in the DAG, in argument order, become the new node's
    /// parent links and gain the child flag; each such parent on the same
    /// branch leaves the head set; the new changeset becomes a head.
    pub fn add(&mut self, cs: &HgChangesetId, parents: &[&HgChangesetId], branch: &[u8])
        requires
            old(self).wf(),
            parents@.len() <= 2,
            old(self).dag.spec_find(*cs) is None,
            old(self).dag.nodes@.len() + 1 <= u32::MAX,
        ensures
            final(self).wf(),
            final(self).dag.nodes@.len() == old(self).dag.nodes@.len() + 1,
            final(self).dag.nodes@.last().node == *cs,
            final(self).dag.nodes@.last().data.branch@ == branch@,
            !final(self).dag.nodes@.last().data.has_children,
            crate::dag::same_shape(
                old(self).dag.nodes@.push(final(self).dag.nodes@.last()),
                final(self).dag.nodes@,
            ),
            forall|i: int| 0 <= i < old(self).dag.nodes@.len()
                ==> (#[trigger] final(self).dag.nodes@[i]).data.branch@ == old(
                self,
            ).dag.nodes@[i].data.branch@,
            // the parent links are exactly the parents found in the DAG
            ({
                let found = crate::dag::spec_found_parents(
                    old(self).dag.nodes@,
                    parents@.map_values(|p: &HgChangesetId| *p),
                );
                &&& final(self).dag.nodes@.last().parent1 == (if found.len() >= 1 {
                    Some(found[0])
                } else {
                    None::<DagNodeId>
                })
                &&& final(self).dag.nodes@.last().parent2 == (if found.len() >= 2 {
                    Some(found[1])
                } else {
                    None::<DagNodeId>
                })
            }),
            // present parents gain the child flag; nothing else does
            forall|i: int| 0 <= i < old(self).dag.nodes@.len() ==> ((#[trigger] final(self).dag.nodes@[i]).data.has_children <==> (old(
                self,
            ).dag.nodes@[i].data.has_children
                || flagged(final(self).dag.nodes@.last().parent1, i) || flagged(
                final(self).dag.nodes@.last().parent2,
                i,
            ))),
            // with no parent found, the head set only gains the new entry
            (final(self).dag.nodes@.last().parent1 is None
                && final(self).dag.nodes@.last().parent2 is None) ==> final(self).heads@ == old(
                self,
            ).heads@.push(final(self).heads@.last()),
            // the head set: the new node joins; a found parent on the same
            // branch leaves; every other entry stays
            final(self).heads@.len() >= 1,
            final(self).heads@.last().0 == old(self).dag.nodes@.len() + 1,
            forall|x: DagNodeId| final(self).heads@.contains(x) <==> (x == final(self).heads@.last() || (old(self).heads@.contains(x) && !(evicted(
                old(self).dag.nodes@,
                final(self).dag.nodes@.last().parent1,
                branch@,
                x,
            ) || evicted(
                old(self).dag.nodes@,
                final(self).dag.nodes@.last().parent2,
                branch@,
                x,
            )))),
    {
        let ghost nodes0 = self.dag.nodes@;
        let ghost heads0 = self.heads@;
        let data = ChangesetInfo {
            has_children: false,
            branch: vstd::slice::slice_to_vec(branch),
        };
        proof {
            lemma_dag_wf_equiv(&self.dag);
        }
        let id = self.dag.add(*cs, parents, data);
        let ghost nodes1 = self.dag.nodes@;
        let ghost newo = nodes0.len() as int;
        let (p1, p2) = self.dag.parents_of(id);
        proof {
            assert(nodes1 == nodes0.push(nodes1.last()));
            assert(nodes1.last().parent1 == p1);
            assert(nodes1.last().parent2 == p2);
            assert(parent_wf(nodes1[newo].parent1, newo));
            assert(parent_wf(nodes1[newo].parent2, newo));
        }
        match p1 {
            Some(pid) => {
                self.flip_parent(pid, branch);
            },
            None => {
            },
        }
        let ghost nodesA = self.dag.nodes@;
        let ghost headsA = self.heads@;
        match p2 {
            Some(pid) => {
                self.flip_parent(pid, branch);
            },
            None => {
            },
        }
        let ghost nodes2 = self.dag.nodes@;
        let ghost headsB = self.heads@;
        self.heads.push(id);
        proof {
            let heads2 = self.heads@;
            assert(heads2.drop_last() =~= headsB);
            assert(heads2 =~= heads2.drop_last().push(heads2.last()));
            assert(wf_parts(nodes0, heads0));
            // nodes2 against nodes1: keys, parents and branches are kept, the
            // present parents gain the flag
            assert forall|i: int| 0 <= i < nodes2.len() implies (#[trigger] nodes2[i]).node
                == nodes1[i].node && nodes2[i].parent1 == nodes1[i].parent1 && nodes2[i].parent2
                == nodes1[i].parent2 && nodes2[i].data.branch@ == nodes1[i].data.branch@ by {
                match p1 {
                    Some(pid1) => {
                        assert(nodesA == nodes1.update(
                            pid1.0 - 1,
                            DagNode {
                                node: nodes1[pid1.0 - 1].node,
                                parent1: nodes1[pid1.0 - 1].parent1,
                                parent2: nodes1[pid1.0 - 1].parent2,
                                data: ChangesetInfo {
                                    has_children: true,
                                    branch: nodes1[pid1.0 - 1].data.branch,
                                },
                            },
                        ));
                    },
                    None => {
                    },
                }
            }
            assert forall|i: int| 0 <= i < nodes2.len() implies ((
            #[trigger] nodes2[i]).data.has_children <==> (nodes1[i].data.has_children || flagged(
                p1,
                i,
            ) || flagged(p2, i))) by {
            }
            // the head set before the push: the old entries less the evicted
            assert forall|x: DagNodeId| headsB.contains(x) <==> (heads0.contains(x) && !(evicted(
                nodes0,
                p1,
                branch@,
                x,
            ) || evicted(nodes0, p2, branch@, x))) by {
                match p1 {
                    Some(pid1) => {
                        assert(nodes1[pid1.0 - 1] == nodes0[pid1.0 - 1]);
                    },
                    None => {
                    },
                }
                match p2 {
                    Some(pid2) => {
                        assert(nodesA[pid2.0 - 1].data.branch@ == nodes0[pid2.0
                            - 1].data.branch@);
                    },
                    None => {
                    },
                }
            }
            assert forall|i: int, j: int| 0 <= i < j < nodes2.len() implies !((
            #[trigger] nodes2[i]).node@ == (#[trigger] nodes2[j]).node@) by {
                assert(!(nodes1[i].node.eq_spec(&nodes1[j].node)));
            }
            lemma_add_restores(nodes0, heads0, nodes1, nodes2, heads2, *cs, branch@, p1, p2);
            // the DAG invariant itself carries over: keys and parents did not
            // change
            assert forall|i: int, j: int| 0 <= i < j < nodes2.len() implies !(
            #[trigger] nodes2[i].node.eq_spec(&nodes2[j].node)) by {
                assert(!(nodes1[i].node.eq_spec(&nodes1[j].node)));
            }
            assert forall|i: int| 0 <= i < nodes2.len() implies parent_wf(
                (#[trigger] nodes2[i]).parent1,
                i,
            ) && parent_wf(nodes2[i].parent2, i) by {
                assert(parent_wf(nodes1[i].parent1, i));
                assert(parent_wf(nodes1[i].parent2, i));
            }
            // the new node's parent links, child flags and head membership,
            // as the contract states them
            assert(nodes2.last() == nodes2[newo]);
            assert(nodes2[newo].parent1 == p1 && nodes2[newo].parent2 == p2);
            assert forall|i: int| 0 <= i < nodes0.len() implies ((
            #[trigger] nodes2[i]).data.has_children <==> (nodes0[i].data.has_children || flagged(
                p1,
                i,
            ) || flagged(p2, i))) by {
                assert(nodes1[i] == nodes0[i]);
            }
            assert(heads2.last() == id);
            assert forall|x: DagNodeId| heads2.contains(x) implies (x == id || headsB.contains(
                x,
            )) by {
                let k = choose|k: int| 0 <= k < heads2.len() && heads2[k] == x;
                if k < heads2.len() - 1 {
                    assert(headsB[k] == x);
                }
            }
            assert forall|x: DagNodeId| headsB.contains(x) implies heads2.contains(x) by {
                let k = choose|k: int| 0 <= k < headsB.len() && headsB[k] == x;
                assert(heads2[k] == x);
            }
            assert(heads2.contains(id)) by {
                assert(heads2[heads2.len() - 1] == id);
            }
            if p1 is None && p2 is None {
                assert(headsB =~= heads0);
                assert(heads2 =~= heads0.push(id));
            }
        }
    }

    /// Mark the parent at `pid` as having a child, and evict it from the
    /// head set when it sits on `branch`.
    fn flip_parent(&mut self, pid: DagNodeId, branch: &[u8])
        requires
            1 <= pid.0 <= old(self).dag.nodes@.len(),
            forall|k1: int, k2: int| 0 <= k1 < k2 < old(self).heads@.len() ==> (#[trigger] old(
                self,
            ).heads@[k1]).0 < (#[trigger] old(self).heads@[k2]).0,
        ensures
            final(self).dag.nodes@ == old(self).dag.nodes@.update(
                pid.0 - 1,
                DagNode {
                    node: old(self).dag.nodes@[pid.0 - 1].node,
                    parent1: old(self).dag.nodes@[pid.0 - 1].parent1,
                    parent2: old(self).dag.nodes@[pid.0 - 1].parent2,
                    data: ChangesetInfo {
                        has_children: true,
                        branch: old(self).dag.nodes@[pid.0 - 1].data.branch,
                    },
                },
            ),
            old(self).dag.nodes@[pid.0 - 1].data.branch@ == branch@ ==> (forall|x: DagNodeId|
                final(self).heads@.contains(x) <==> old(self).heads@.contains(x) && x != pid),
            old(self).dag.nodes@[pid.0 - 1].data.branch@ != branch@
                ==> final(self).heads@ == old(self).heads@,
            final(self).heads@.len() <= old(self).heads@.len(),
            forall|k1: int, k2: int| 0 <= k1 < k2 < final(self).heads@.len()
                ==> (#[trigger] final(self).heads@[k1]).0 < (#[trigger] final(self).heads@[k2]).0,
            forall|x: DagNodeId| final(self).heads@.contains(x) ==> old(self).heads@.contains(x),
    {
        let same = {
            let (_, pdata) = self.dag.get_by_id(pid);
            bytes_eq(pdata.branch.as_slice(), branch)
        };
        let d = self.dag.data_mut_by_id(pid);
        d.has_children = true;
        if same {
            remove_head(&mut self.heads, pid);
        }
    }

    /// The current branch heads: each with its branch label, in insertion
    /// order.
    pub fn branch_heads(&self) -> (r: Vec<(HgChangesetId, Vec<u8>)>)
        requires
            self.wf(),
        ensures
            r@.map_values(|p: (HgChangesetId, Vec<u8>)| (p.0, p.1@)) == spec_branch_heads(
                self.dag.nodes@,
                self.heads@,
            ),
    {
        let ghost hs = self.heads@;
        let mut r: Vec<(HgChangesetId, Vec<u8>)> = Vec::new();
        let mut i: usize = 0;
        proof {
            assert(hs.skip(0) =~= hs);
            assert(r@.map_values(|p: (HgChangesetId, Vec<u8>)| (p.0, p.1@)) =~= Seq::<
                (HgChangesetId, Seq<u8>),
            >::empty());
        }
        while i < self.heads.len()
            invariant
                0 <= i <= hs.len(),
                hs == self.heads@,
                self.wf(),
                spec_branch_heads(self.dag.nodes@, hs) == r@.map_values(
                    |p: (HgChangesetId, Vec<u8>)| (p.0, p.1@),
                ) + spec_branch_heads(self.dag.nodes@, hs.skip(i as int)),
            decreases hs.len() - i,
        {
            let id = self.heads[i];
            proof {
                assert(hs.skip(i as int)[0] == hs[i as int]);
                assert(hs.skip(i as int).drop_first() =~= hs.skip(i + 1));
            }
            let (node, data) = self.dag.get_by_id(id);
            let pair = (*node, vstd::slice::slice_to_vec(data.branch.as_slice()));
            let ghost prev = r@.map_values(|p: (HgChangesetId, Vec<u8>)| (p.0, p.1@));
            r.push(pair);
            proof {
                assert(r@.map_values(|p: (HgChangesetId, Vec<u8>)| (p.0, p.1@)) =~= prev + seq![
                    (self.dag.nodes@[id.0 - 1].node, self.dag.nodes@[id.0 - 1].data.branch@),
                ]);
            }
            i = i + 1;
        }
        proof {
            assert(hs.skip(hs.len() as int) =~= Seq::<DagNodeId>::empty());
            assert(r@.map_values(|p: (HgChangesetId, Vec<u8>)| (p.0, p.1@)) + Seq::<
                (HgChangesetId, Seq<u8>),
            >::empty() =~= r@.map_values(|p: (HgChangesetId, Vec<u8>)| (p.0, p.1@)));
        }
        r
    }

    /// The true heads: branch heads whose node has no child on any branch.
    pub fn heads(&self) -> (r: Vec<HgChangesetId>)
        requires
            self.wf(),
        ensures
            r@ == spec_filter_heads(self.dag.nodes@, self.heads@),
    {
        let ghost hs = self.heads@;
        let mut r: Vec<HgChangesetId> = Vec::new();
        let mut i: usize = 0;
        proof {
            assert(hs.skip(0) =~= hs);
            assert(r@ =~= Seq::<HgChangesetId>::empty());
        }
        while i < self.heads.len()
            invariant
                0 <= i <= hs.len(),
                hs == self.heads@,
                self.wf(),
                spec_filter_heads(self.dag.nodes@, hs) == r@ + spec_filter_heads(
                    self.dag.nodes@,
                    hs.skip(i as int),
                ),
            decreases hs.len() - i,
        {
            let id = self.heads[i];
            proof {
                assert(hs.skip(i as int)[0] == hs[i as int]);
                assert(hs.skip(i as int).drop_first() =~= hs.skip(i + 1));
            }
            let (node, data) = self.dag.get_by_id(id);
            if !data.has_children {
                let ghost prev = r@;
                r.push(*node);
                proof {
                    assert(r@ =~= prev + seq![self.dag.nodes@[id.0 - 1].node]);
                }
            }
            i = i + 1;
        }
        proof {
            assert(hs.skip(hs.len() as int) =~= Seq::<DagNodeId>::empty());
            assert(r@ + Seq::<HgChangesetId>::empty() =~= r@);
        }
        r
    }

    /// Whether no head is recorded.
    pub fn is_empty(&self) -> (r: bool)
        ensures
            r == (self.heads@.len() == 0),
    {
        self.heads.len() == 0
    }
}

/// A node with a descendant has, in particular, a child.
proof fn lemma_descendant_has_child(
    nodes: Seq<DagNode<HgChangesetId, ChangesetInfo>>,
    a: int,
    d: int,
)
    requires
        0 <= a,
        0 <= d < nodes.len(),
        is_descendant(nodes, a, d),
    ensures
        has_child(nodes, a),
    decreases d,
{
    if is_parent(nodes, a, d) {
        assert(has_child(nodes, a));
    } else {
        let k = choose|k: int| 0 <= k < d && is_parent(nodes, k, d) && is_descendant(nodes, a, k);
        lemma_descendant_has_child(nodes, a, k);
    }
}

/// The filtered head list never carries the changeset of a node whose
/// `has_children` flag is set.
proof fn lemma_filter_heads_absent(
    nodes: Seq<DagNode<HgChangesetId, ChangesetInfo>>,
    hs: Seq<DagNodeId>,
    a: int,
)
    requires
        0 <= a < nodes.len(),
        nodes[a].data.has_children,
        forall|i: int, j: int| 0 <= i < j < nodes.len() ==> !((#[trigger] nodes[i]).node@ == (
        #[trigger] nodes[j]).node@),
    ensures
        !spec_filter_heads(nodes, hs).contains(nodes[a].node),
    decreases hs.len(),
{
    if hs.len() > 0 {
        lemma_filter_heads_absent(nodes, hs.drop_first(), a);
        let r = spec_filter_heads(nodes, hs);
        let rest = spec_filter_heads(nodes, hs.drop_first());
        assert forall|k: int| 0 <= k < r.len() implies r[k] != nodes[a].node by {
            if 1 <= hs[0].0 <= nodes.len() && !nodes[hs[0].0 - 1].data.has_children {
                if k == 0 {
                    let o = hs[0].0 - 1;
                    assert(o != a);
                    assert(r[0] == nodes[o].node);
                    if nodes[o].node == nodes[a].node {
                        assert(nodes[o].node@ == nodes[a].node@);
                    }
                    assert(!rest.contains(nodes[a].node));
                } else {
                    assert(r[k] == rest[k - 1]);
                    assert(!rest.contains(nodes[a].node));
                }
            } else {
                assert(r[k] == rest[k]);
                assert(!rest.contains(nodes[a].node));
            }
        }
        if r.contains(nodes[a].node) {
            let k = choose|k: int| 0 <= k < r.len() && r[k] == nodes[a].node;
        }
    }
}

/// The filtered head list carries the changeset of every head entry whose
/// node has no child.
proof fn lemma_filter_heads_present(
    nodes: Seq<DagNode<HgChangesetId, ChangesetInfo>>,
    hs: Seq<DagNodeId>,
    a: int,
)
    requires
        0 <= a < nodes.len(),
        !nodes[a].data.has_children,
        contains_head(hs, a),
        forall|k: int| 0 <= k < hs.len() ==> 1 <= (#[trigger] hs[k]).0 <= nodes.len(),
    ensures
        spec_filter_heads(nodes, hs).contains(nodes[a].node),
    decreases hs.len(),
{
    let k = choose|k: int| 0 <= k < hs.len() && (#[trigger] hs[k]).0 - 1 == a;
    let r = spec_filter_heads(nodes, hs);
    let rest = spec_filter_heads(nodes, hs.drop_first());
    if k == 0 {
        assert(r[0] == nodes[a].node);
        assert(r.contains(nodes[a].node));
    } else {
        assert(hs.drop_first()[k - 1] == hs[k]);
        assert(contains_head(hs.drop_first(), a));
        assert forall|k2: int| 0 <= k2 < hs.drop_first().len() implies 1 <= (
        #[trigger] hs.drop_first()[k2]).0 <= nodes.len() by {
            assert(hs.drop_first()[k2] == hs[k2 + 1]);
        }
        lemma_filter_heads_present(nodes, hs.drop_first(), a);
        let j = choose|j: int| 0 <= j < rest.len() && rest[j] == nodes[a].node;
        if 1 <= hs[0].0 <= nodes.len() && !nodes[hs[0].0 - 1].data.has_children {
            assert(r[j + 1] == rest[j]);
            assert(r.contains(nodes[a].node));
        } else {
            assert(r[j] == rest[j]);
            assert(r.contains(nodes[a].node));
        }
    }
}

/// `heads()` never includes a node with a descendant on its own branch: such
/// a node has a child, so its `has_children` flag is set and the filter drops
/// it.
pub proof fn lemma_heads_exclude_same_branch_descendant(h: &ChangesetHeads, a: int, d: int)
    requires
        h.wf(),
        0 <= a < h.dag.nodes@.len(),
        0 <= d < h.dag.nodes@.len(),
        is_descendant(h.dag.nodes@, a, d),
        h.dag.nodes@[d].data.branch@ == h.dag.nodes@[a].data.branch@,
    ensures
        !spec_filter_heads(h.dag.nodes@, h.heads@).contains(h.dag.nodes@[a].node),
{
    lemma_descendant_has_child(h.dag.nodes@, a, d);
    assert(h.dag.nodes@[a].data.has_children);
    lemma_filter_heads_absent(h.dag.nodes@, h.heads@, a);
}

/// `heads()` always includes every node with no descendant at all: such a
/// node has no child on any branch, so it sits in the head set with its
/// `has_children` flag clear.
pub proof fn lemma_heads_include_childless(h: &ChangesetHeads, a: int)
    requires
        h.wf(),
        0 <= a < h.dag.nodes@.len(),
        forall|d: int| 0 <= d < h.dag.nodes@.len() ==> !is_descendant(h.dag.nodes@, a, d),
    ensures
        spec_filter_heads(h.dag.nodes@, h.heads@).contains(h.dag.nodes@[a].node),
{
    let nodes = h.dag.nodes@;
    assert(!has_child(nodes, a)) by {
        if has_child(nodes, a) {
            let c = choose|c: int| is_parent(nodes, a, c);
            assert(is_descendant(nodes, a, c));
        }
    }
    assert(!nodes[a].data.has_children);
    assert(!has_same_branch_child(nodes, a)) by {
        if has_same_branch_child(nodes, a) {
            let c = choose|c: int| is_parent(nodes, a, c) && nodes[c].data.branch@
                == nodes[a].data.branch@;
            assert(has_child(nodes, a));
        }
    }
    assert(contains_head(h.heads@, a));
    lemma_filter_heads_present(nodes, h.heads@, a);
}

/// Drop the head entry with handle `id`, if present.
fn remove_head(heads: &mut Vec<DagNodeId>, id: DagNodeId)
    requires
        forall|k1: int, k2: int|
            0 <= k1 < k2 < old(heads)@.len() ==> (#[trigger] old(heads)@[k1]).0 < (#[trigger] old(
                heads,
            )@[k2]).0,
    ensures
        forall|x: DagNodeId| final(heads)@.contains(x) ==> old(heads)@.contains(x),
        forall|x: DagNodeId| final(heads)@.contains(x) <==> (old(heads)@.contains(x) && x != id),
        forall|k1: int, k2: int|
            0 <= k1 < k2 < final(heads)@.len() ==> (#[trigger] final(heads)@[k1]).0 < (
            #[trigger] final(heads)@[k2]).0,
        final(heads)@.len() <= old(heads)@.len(),
{
    let ghost hs = old(heads)@;
    let mut i: usize = 0;
    while i < heads.len()
        invariant
            0 <= i <= hs.len(),
            heads@ == hs,
            old(heads)@ == hs,
            forall|k1: int, k2: int| 0 <= k1 < k2 < hs.len() ==> (#[trigger] hs[k1]).0 < (
            #[trigger] hs[k2]).0,
            forall|k: int| 0 <= k < i ==> (#[trigger] hs[k]) != id,
        decreases hs.len() - i,
    {
        if heads[i].0 == id.0 {
            proof {
                assert(hs[i as int] == id);
            }
            heads.remove(i);
            proof {
                assert(heads@ =~= hs.take(i as int) + hs.skip(i + 1));
                let r = heads@;
                assert forall|x: DagNodeId| r.contains(x) implies hs.contains(x) by {
                    let k = choose|k: int| 0 <= k < r.len() && r[k] == x;
                    if k < i {
                        assert(hs[k] == x);
                    } else {
                        assert(hs[k + 1] == x);
                    }
                }
                assert forall|x: DagNodeId| r.contains(x) <==> (hs.contains(x) && x != id) by {
                    if r.contains(x) {
                        let k = choose|k: int| 0 <= k < r.len() && r[k] == x;
                        if k < i {
                            assert(hs[k] == x);
                            assert(hs[k].0 != hs[i as int].0);
                        } else {
                            assert(hs[k + 1] == x);
                            assert(hs[k + 1].0 != hs[i as int].0);
                        }
                    }
                    if hs.contains(x) && x != id {
                        let k = choose|k: int| 0 <= k < hs.len() && hs[k] == x;
                        assert(hs[k] != hs[i as int]);
                        if k < i {
                            assert(r[k] == x);
                        } else {
                            assert(r[k - 1] == x);
                        }
                    }
                }
                assert forall|k1: int, k2: int| 0 <= k1 < k2 < r.len() implies (
                #[trigger] r[k1]).0 < (#[trigger] r[k2]).0 by {
                    let o1 = if k1 < i {
                        k1
                    } else {
                        k1 + 1
                    };
                    let o2 = if k2 < i {
                        k2
                    } else {
                        k2 + 1
                    };
                    assert(r[k1] == hs[o1]);
                    assert(r[k2] == hs[o2]);
                }
            }
            return ;
        }
        i = i + 1;
    }
    proof {
        assert forall|x: DagNodeId| heads@.contains(x) implies !(x == id) by {
            let k = choose|k: int| 0 <= k < hs.len() && hs[k] == x;
            assert(hs[k] != id);
        }
    }
}

/// After one `add`: the invariant holds again.
///
/// `nodes1` is the DAG right after the append, `nodes2` after the present
/// parents were flagged, `heads2` the head set after evictions and the push
/// of the new node's handle.
#[verifier::rlimit(100)]
proof fn lemma_add_restores(
    nodes0: Seq<DagNode<HgChangesetId, ChangesetInfo>>,
    heads0: Seq<DagNodeId>,
    nodes1: Seq<DagNode<HgChangesetId, ChangesetInfo>>,
    nodes2: Seq<DagNode<HgChangesetId, ChangesetInfo>>,
    heads2: Seq<DagNodeId>,
    cs: HgChangesetId,
    branch: Seq<u8>,
    p1: Option<DagNodeId>,
    p2: Option<DagNodeId>,
)
    requires
        wf_parts(nodes0, heads0),
        nodes1.len() == nodes0.len() + 1,
        nodes1 == nodes0.push(nodes1.last()),
        nodes1.last().node == cs,
        nodes1.last().data.branch@ == branch,
        !nodes1.last().data.has_children,
        nodes1.last().parent1 == p1,
        nodes1.last().parent2 == p2,
        parent_ok(p1, nodes0.len() as int),
        parent_ok(p2, nodes0.len() as int),
        // nodes2: nodes1 with present parents flagged
        nodes2.len() == nodes1.len(),
        forall|i: int| 0 <= i < nodes2.len() ==> (#[trigger] nodes2[i]).node == nodes1[i].node
            && nodes2[i].parent1 == nodes1[i].parent1 && nodes2[i].parent2 == nodes1[i].parent2
            && nodes2[i].data.branch@ == nodes1[i].data.branch@,
        forall|i: int| 0 <= i < nodes2.len() ==> ((#[trigger] nodes2[i]).data.has_children <==> (
        nodes1[i].data.has_children || flagged(p1, i) || flagged(p2, i))),
        // heads2: heads0 minus same-branch parents, plus the new handle
        heads2.len() >= 1,
        heads2.last().0 == nodes0.len() + 1,
        heads2 == heads2.drop_last().push(heads2.last()),
        forall|x: DagNodeId| heads2.drop_last().contains(x) <==> (heads0.contains(x) && !(
        evicted(nodes0, p1, branch, x) || evicted(nodes0, p2, branch, x))),
        forall|k1: int, k2: int| 0 <= k1 < k2 < heads2.drop_last().len() ==> (
        #[trigger] heads2.drop_last()[k1]).0 < (#[trigger] heads2.drop_last()[k2]).0,
        forall|k: int| 0 <= k < heads2.drop_last().len() ==> heads0.contains(
            #[trigger] heads2.drop_last()[k],
        ),
        // the distinctness of node keys, as the DAG keeps it
        forall|i: int, j: int| 0 <= i < j < nodes2.len()
            ==> !((#[trigger] nodes2[i]).node@ == (#[trigger] nodes2[j]).node@),
    ensures
        wf_parts(nodes2, heads2),
{
    let n0 = nodes0.len() as int;
    let newo = n0;
    // head entries are valid and distinct
    assert forall|k: int| 0 <= k < heads2.len() implies 1 <= (#[trigger] heads2[k]).0
        <= nodes2.len() by {
        if k < heads2.len() - 1 {
            assert(heads2[k] == heads2.drop_last()[k]);
            assert(heads0.contains(heads2.drop_last()[k]));
            let j = choose|j: int| 0 <= j < heads0.len() && heads0[j] == heads2[k];
        }
    }
    assert forall|k1: int, k2: int| 0 <= k1 < k2 < heads2.len() implies (
    #[trigger] heads2[k1]).0 < (#[trigger] heads2[k2]).0 by {
        if k2 == heads2.len() - 1 {
            assert(heads2[k1] == heads2.drop_last()[k1]);
            assert(heads0.contains(heads2[k1]));
            let j = choose|j: int| 0 <= j < heads0.len() && heads0[j] == heads2[k1];
            assert(heads2[k1].0 <= nodes0.len());
        } else {
            assert(heads2[k1] == heads2.drop_last()[k1]);
            assert(heads2[k2] == heads2.drop_last()[k2]);
        }
    }
    // edges of nodes2: old edges, plus the new node's
    assert forall|p: int, c: int| is_parent(nodes2, p, c) implies (c < n0 && is_parent(
        nodes0,
        p,
        c,
    )) || (c == newo && (flagged(p1, p) || flagged(p2, p))) by {
        if c < n0 {
            assert(nodes2[c].parent1 == nodes0[c].parent1);
            assert(nodes2[c].parent2 == nodes0[c].parent2);
        } else {
            assert(nodes2[c].parent1 == p1);
            assert(nodes2[c].parent2 == p2);
        }
    }
    assert forall|p: int, c: int| (c < n0 && is_parent(nodes0, p, c)) || (c == newo && 0 <= p < n0
        && (flagged(p1, p) || flagged(p2, p))) implies is_parent(nodes2, p, c) by {
        if c < n0 && is_parent(nodes0, p, c) {
            assert(nodes2[c].parent1 == nodes0[c].parent1);
            assert(nodes2[c].parent2 == nodes0[c].parent2);
        } else {
            assert(nodes2[newo].parent1 == p1);
            assert(nodes2[newo].parent2 == p2);
        }
    }
    // has_children mirrors the edges
    assert forall|p: int| 0 <= p < nodes2.len() implies ((
    #[trigger] nodes2[p]).data.has_children <==> has_child(nodes2, p)) by {
        if p == newo {
            assert(!nodes1.last().data.has_children);
            if has_child(nodes2, p) {
                let c = choose|c: int| is_parent(nodes2, p, c);
                assert(c <= newo);
            }
            assert(!flagged(p1, p) && !flagged(p2, p)) by {
                if flagged(p1, p) {
                    let id = p1.unwrap();
                    assert(1 <= id.0 <= n0);
                }
                if flagged(p2, p) {
                    let id = p2.unwrap();
                    assert(1 <= id.0 <= n0);
                }
            }
        } else {
            assert(nodes1[p].data.has_children == nodes0[p].data.has_children);
            if nodes2[p].data.has_children {
                if nodes0[p].data.has_children {
                    assert(has_child(nodes0, p));
                    let c = choose|c: int| is_parent(nodes0, p, c);
                    assert(is_parent(nodes2, p, c));
                } else {
                    assert(flagged(p1, p) || flagged(p2, p));
                    assert(is_parent(nodes2, p, newo));
                }
            }
            if has_child(nodes2, p) {
                let c = choose|c: int| is_parent(nodes2, p, c);
                if c < n0 {
                    assert(is_parent(nodes0, p, c));
                    assert(nodes0[p].data.has_children);
                }
            }
        }
    }
    // the head set holds exactly the nodes without a same-branch child
    assert forall|p: int| 0 <= p < nodes2.len() implies (contains_head(heads2, p)
        <==> !has_same_branch_child(nodes2, p)) by {
        if p == newo {
            assert(heads2[heads2.len() - 1].0 - 1 == p);
            assert(contains_head(heads2, p));
            if has_same_branch_child(nodes2, p) {
                let c = choose|c: int| is_parent(nodes2, p, c) && nodes2[c].data.branch@
                    == nodes2[p].data.branch@;
                assert(c <= newo);
            }
        } else {
            if contains_head(heads2, p) {
                // an old entry: its node had no same-branch child and was not
                // evicted
                let k = choose|k: int| 0 <= k < heads2.len() && (#[trigger] heads2[k]).0 - 1 == p;
                assert(k < heads2.len() - 1);
                assert(heads2.drop_last()[k] == heads2[k]);
                assert(heads2.drop_last().contains(heads2[k]));
                assert(heads0.contains(heads2[k]));
                assert(contains_head(heads0, p)) by {
                    let j = choose|j: int| 0 <= j < heads0.len() && heads0[j] == heads2[k];
                }
                assert(!has_same_branch_child(nodes0, p));
                if has_same_branch_child(nodes2, p) {
                    let c = choose|c: int| is_parent(nodes2, p, c) && nodes2[c].data.branch@
                        == nodes2[p].data.branch@;
                    if c < n0 {
                        assert(is_parent(nodes0, p, c));
                        assert(nodes0[c].data.branch@ == nodes2[c].data.branch@);
                        assert(has_same_branch_child(nodes0, p));
                    } else {
                        // the new child sits on branch `branch`; eviction
                        // would have removed this entry
                        assert(flagged(p1, p) || flagged(p2, p));
                        assert(nodes2[c].data.branch@ == branch);
                        assert(nodes2[p].data.branch@ == nodes0[p].data.branch@);
                        assert(evicted(nodes0, p1, branch, heads2[k]) || evicted(
                            nodes0,
                            p2,
                            branch,
                            heads2[k],
                        ));
                        assert(!heads2.drop_last().contains(heads2[k]));
                    }
                }
            }
            if !has_same_branch_child(nodes2, p) {
                assert(!has_same_branch_child(nodes0, p)) by {
                    if has_same_branch_child(nodes0, p) {
                        let c = choose|c: int| is_parent(nodes0, p, c) && nodes0[c].data.branch@
                            == nodes0[p].data.branch@;
                        assert(is_parent(nodes2, p, c));
                        assert(nodes2[c].data.branch@ == nodes0[c].data.branch@);
                    }
                }
                assert(contains_head(heads0, p));
                let k = choose|k: int| 0 <= k < heads0.len() && (#[trigger] heads0[k]).0 - 1 == p;
                let x = heads0[k];
                assert(heads0.contains(x));
                assert(!evicted(nodes0, p1, branch, x) && !evicted(nodes0, p2, branch, x)) by {
                    if evicted(nodes0, p1, branch, x) {
                        assert(flagged(p1, p));
                        assert(is_parent(nodes2, p, newo));
                        assert(nodes2[newo].data.branch@ == branch);
                        assert(nodes2[p].data.branch@ == nodes0[p].data.branch@);
                    }
                    if evicted(nodes0, p2, branch, x) {
                        assert(flagged(p2, p));
                        assert(is_parent(nodes2, p, newo));
                        assert(nodes2[newo].data.branch@ == branch);
                        assert(nodes2[p].data.branch@ == nodes0[p].data.branch@);
                    }
                }
                assert(heads2.drop_last().contains(x));
                let j = choose|j: int| 0 <= j < heads2.drop_last().len() && heads2.drop_last()[j]
                    == x;
                assert(heads2[j] == x);
                assert(contains_head(heads2, p));
            }
        }
    }
    // key distinctness carries over through equal views
    assert forall|i: int, j: int| 0 <= i < j < nodes2.len() implies !(#[trigger] nodes2[i].node.eq_spec(
        &nodes2[j].node,
    )) by {
    }
    assert(nodes2.len() <= u32::MAX);
}

/// A parent handle found by the append: present and pointing into the old
/// nodes.
pub open spec fn parent_ok(p: Option<DagNodeId>, n0: int) -> bool {
    match p {
        Some(id) => 1 <= id.0 <= n0,
        None => true,
    }
}

/// The parent handle `p` addresses offset `i`.
pub open spec fn flagged(p: Option<DagNodeId>, i: int) -> bool {
    p matches Some(id) && id.0 - 1 == i
}

/// The head entry `x` is evicted by flagging parent `p` with the new branch.
pub open spec fn evicted(
    nodes0: Seq<DagNode<HgChangesetId, ChangesetInfo>>,
    p: Option<DagNodeId>,
    branch: Seq<u8>,
    x: DagNodeId,
) -> bool {
    p matches Some(id) && x == id && 1 <= id.0 <= nodes0.len() && nodes0[id.0
        - 1].data.branch@ == branch
}

/// The two invariant clauses `lemma_add_restores` carries, as one predicate
/// over plain parts.
pub open spec fn wf_parts(
    nodes: Seq<DagNode<HgChangesetId, ChangesetInfo>>,
    heads: Seq<DagNodeId>,
) -> bool {
    &&& nodes.len() <= u32::MAX
    &&& forall|k: int| 0 <= k < heads.len() ==> 1 <= (#[trigger] heads[k]).0 <= nodes.len()
    &&& forall|k1: int, k2: int| 0 <= k1 < k2 < heads.len() ==> (#[trigger] heads[k1]).0 < (
    #[trigger] heads[k2]).0
    &&& forall|p: int| 0 <= p < nodes.len() ==> (contains_head(heads, p)
        <==> !has_same_branch_child(nodes, p))
    &&& forall|p: int| 0 <= p < nodes.len() ==> ((#[trigger] nodes[p]).data.has_children
        <==> has_child(nodes, p))
}

} // verus!
