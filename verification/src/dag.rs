//! An append-only directed acyclic graph with at most two parents per node:
//! nodes are addressed by dense one-based handles, parents always precede
//! their children in the backing array, and lookups go by node key.

use vstd::prelude::*;

use vstd::std_specs::cmp::PartialEqSpec;

verus! {

/// The seen-set used by traversals.
#[verifier::external_type_specification]
#[verifier::external_body]
#[verifier::reject_recursive_types(B)]
pub struct ExBitVec<B>(bit_vec::BitVec<B>);

/// The bits a seen-set holds, in index order.
pub uninterp spec fn bit_vec_bits(v: &bit_vec::BitVec<u32>) -> Seq<bool>;

/// Relies on `bit_vec::BitVec::from_elem`: a vector of `len` bits, all equal
/// to `bit`.
#[verifier::external_body]
fn bits_new(len: usize, bit: bool) -> (r: bit_vec::BitVec<u32>)
    ensures
        bit_vec_bits(&r) == Seq::new(len as nat, |i: int| bit),
{
    bit_vec::BitVec::from_elem(len, bit)
}

/// Relies on `bit_vec::BitVec`'s `Index` impl: the bit at `i`.
#[verifier::external_body]
fn bits_get(v: &bit_vec::BitVec<u32>, i: usize) -> (r: bool)
    requires
        i < bit_vec_bits(v).len(),
    ensures
        r == bit_vec_bits(v)[i as int],
{
    v[i]
}

/// Relies on `bit_vec::BitVec::set`: writes the bit at `i`.
#[verifier::external_body]
fn bits_set(v: &mut bit_vec::BitVec<u32>, i: usize, bit: bool)
    requires
        i < bit_vec_bits(old(v)).len(),
    ensures
        bit_vec_bits(final(v)) == bit_vec_bits(old(v)).update(i as int, bit),
{
    v.set(i, bit)
}

/// A dense, one-based, never reused handle to a DAG node.
#[derive(Clone, Copy, Debug, PartialEq, Eq, Structural)]
pub struct DagNodeId(pub u32);

impl DagNodeId {
    /// The handle for the node at `offset`, unless the offset space is
    /// exhausted.
    pub fn try_from_offset(offset: usize) -> (r: Option<Self>)
        ensures
            match r {
                Some(id) => id.0 == offset + 1,
                None => offset + 1 > u32::MAX,
            },
    {
        if offset < 0xFFFF_FFFFusize {
            Some(DagNodeId((offset + 1) as u32))
        } else {
            None
        }
    }

    /// The offset of the node this handle addresses.
    pub fn to_offset(self) -> (r: usize)
        requires
            self.0 >= 1,
        ensures
            r == self.0 - 1,
    {
        (self.0 - 1) as usize
    }
}

/// One node: its key, up to two parent handles, and its payload.
#[derive(Debug)]
pub struct DagNode<N, T> {
    pub node: N,
    pub parent1: Option<DagNodeId>,
    pub parent2: Option<DagNodeId>,
    pub data: T,
}

/// Which way `traverse_mut` walks.
pub enum Traversal {
    Parents,
    Children,
}

/// A caller-supplied visitor: reads and may mutate a node's payload, and
/// decides whether the traversal continues past that node.
pub trait DagVisitor<N, T> {
    fn visit(&mut self, node: &N, data: &mut T) -> bool;
}

/// The append-only DAG.
#[derive(Debug)]
pub struct Dag<N, T> {
    pub nodes: Vec<DagNode<N, T>>,
}

/// A parent handle is valid for a node at `i`: it points strictly before `i`.
pub open spec fn parent_wf(p: Option<DagNodeId>, i: int) -> bool {
    match p {
        Some(id) => 1 <= id.0 && id.0 <= i,
        None => true,
    }
}

/// The first node from `i` on whose key equals `n`.
pub open spec fn spec_find_from<N: PartialEqSpec, T>(
    s: Seq<DagNode<N, T>>,
    n: N,
    i: int,
) -> Option<int>
    decreases s.len() - i,
{
    if i < 0 || i >= s.len() {
        None
    } else if s[i].node.eq_spec(&n) {
        Some(i)
    } else {
        spec_find_from(s, n, i + 1)
    }
}

/// The handles of those parents that are present in the DAG, in argument
/// order.
pub open spec fn spec_found_parents<N: PartialEqSpec, T>(
    s: Seq<DagNode<N, T>>,
    parents: Seq<N>,
) -> Seq<DagNodeId>
    decreases parents.len(),
{
    if parents.len() == 0 {
        Seq::empty()
    } else {
        (match spec_find_from(s, parents[0], 0) {
            Some(i) => seq![DagNodeId((i + 1) as u32)],
            None => Seq::<DagNodeId>::empty(),
        }) + spec_found_parents(s, parents.drop_first())
    }
}

/// What `spec_find_from` returns: the first match, if any.
pub proof fn lemma_find_from_props<N: PartialEqSpec, T>(s: Seq<DagNode<N, T>>, n: N, i: int)
    requires
        0 <= i <= s.len(),
    ensures
        match spec_find_from(s, n, i) {
            Some(k) => i <= k < s.len() && s[k].node.eq_spec(&n) && forall|j: int|
                i <= j < k ==> !(#[trigger] s[j].node.eq_spec(&n)),
            None => forall|j: int| i <= j < s.len() ==> !(#[trigger] s[j].node.eq_spec(&n)),
        },
    decreases s.len() - i,
{
    if i < s.len() && !s[i].node.eq_spec(&n) {
        lemma_find_from_props(s, n, i + 1);
    }
}

impl<N: PartialEq + PartialEqSpec, T> Dag<N, T> {
    /// Keys are pairwise distinct, every parent handle points strictly
    /// earlier in the array, and the handle space is not exhausted.
    pub open spec fn wf(&self) -> bool {
        &&& self.nodes@.len() <= u32::MAX
        &&& forall|i: int, j: int| 0 <= i < j < self.nodes@.len()
            ==> !(#[trigger] self.nodes@[i].node.eq_spec(&self.nodes@[j].node))
        &&& forall|i: int| 0 <= i < self.nodes@.len() ==> parent_wf(
            (#[trigger] self.nodes@[i]).parent1,
            i,
        ) && parent_wf(self.nodes@[i].parent2, i)
    }

    /// The first node whose key equals `n`.
    pub open spec fn spec_find(&self, n: N) -> Option<int> {
        spec_find_from(self.nodes@, n, 0)
    }

    /// An empty DAG.
    pub fn new() -> (r: Self)
        ensures
            r.nodes@.len() == 0,
            r.wf(),
    {
        Dag { nodes: Vec::new() }
    }

    /// The offset of the node with key `n`, if present.
    fn find_index(&self, n: &N) -> (r: Option<usize>)
        requires
            N::obeys_eq_spec(),
        ensures
            match r {
                Some(k) => self.spec_find(*n) == Some(k as int),
                None => self.spec_find(*n) is None,
            },
    {
        let mut i: usize = 0;
        while i < self.nodes.len()
            invariant
                0 <= i <= self.nodes@.len(),
                N::obeys_eq_spec(),
                self.spec_find(*n) == spec_find_from(self.nodes@, *n, i as int),
            decreases self.nodes@.len() - i,
        {
            if self.nodes[i].node.eq(n) {
                return Some(i);
            }
            i = i + 1;
        }
        None
    }

    /// Append a node. Parents not found in the DAG are skipped; the rest
    /// become the node's parent handles, in order.
    pub fn add(&mut self, node: N, parents: &[&N], data: T) -> (id: DagNodeId)
        requires
            old(self).wf(),
            N::obeys_eq_spec(),
            parents@.len() <= 2,
            old(self).spec_find(node) is None,
            old(self).nodes@.len() + 1 <= u32::MAX,
        ensures
            final(self).wf(),
            id.0 == old(self).nodes@.len() + 1,
            ({
                let found = spec_found_parents(
                    old(self).nodes@,
                    parents@.map_values(|p: &N| *p),
                );
                final(self).nodes@ == old(self).nodes@.push(
                    DagNode {
                        node,
                        parent1: if found.len() >= 1 {
                            Some(found[0])
                        } else {
                            None
                        },
                        parent2: if found.len() >= 2 {
                            Some(found[1])
                        } else {
                            None
                        },
                        data,
                    },
                )
            }),
    {
        let ghost pview = parents@.map_values(|p: &N| *p);
        let mut found: Vec<DagNodeId> = Vec::new();
        let mut i: usize = 0;
        proof {
            assert(pview.skip(0) =~= pview);
            assert(found@ =~= Seq::<DagNodeId>::empty());
            lemma_found_parents_split(self.nodes@, pview, 0);
        }
        while i < parents.len()
            invariant
                0 <= i <= parents@.len(),
                N::obeys_eq_spec(),
                self == old(self),
                pview == parents@.map_values(|p: &N| *p),
                self.nodes@.len() + 1 <= u32::MAX,
                spec_found_parents(self.nodes@, pview) == found@ + spec_found_parents(
                    self.nodes@,
                    pview.skip(i as int),
                ),
                forall|k: int| 0 <= k < found@.len() ==> 1 <= (#[trigger] found@[k]).0
                    <= self.nodes@.len(),
            decreases parents@.len() - i,
        {
            proof {
                assert(pview.skip(i as int)[0] == pview[i as int]);
                assert(pview[i as int] == *parents@[i as int]);
                assert(pview.skip(i as int).drop_first() =~= pview.skip(i + 1));
            }
            let p = parents[i];
            match self.find_index(p) {
                Some(k) => {
                    proof {
                        lemma_find_from_props(self.nodes@, *p, 0);
                        assert(spec_found_parents(self.nodes@, pview.skip(i as int)) == seq![
                            DagNodeId((k + 1) as u32),
                        ] + spec_found_parents(self.nodes@, pview.skip(i + 1)));
                        assert((found@ + seq![DagNodeId((k + 1) as u32)]) + spec_found_parents(
                            self.nodes@,
                            pview.skip(i + 1),
                        ) =~= found@ + (seq![DagNodeId((k + 1) as u32)] + spec_found_parents(
                            self.nodes@,
                            pview.skip(i + 1),
                        )));
                    }
                    found.push(DagNodeId((k + 1) as u32));
                },
                None => {
                    proof {
                        assert(spec_found_parents(self.nodes@, pview.skip(i as int))
                            == spec_found_parents(self.nodes@, pview.skip(i + 1)));
                    }
                },
            }
            i = i + 1;
        }
        proof {
            assert(pview.skip(parents@.len() as int) =~= Seq::<N>::empty());
            assert(found@ + Seq::<DagNodeId>::empty() =~= found@);
        }
        let parent1 = if found.len() >= 1 {
            Some(found[0])
        } else {
            None
        };
        let parent2 = if found.len() >= 2 {
            Some(found[1])
        } else {
            None
        };
        let offset = self.nodes.len();
        let ghost before = self.nodes@;
        self.nodes.push(DagNode { node, parent1, parent2, data });
        proof {
            lemma_find_from_props(before, node, 0);
            assert forall|a: int, b: int| 0 <= a < b < self.nodes@.len() implies !(
            #[trigger] self.nodes@[a].node.eq_spec(&self.nodes@[b].node)) by {
                if b < before.len() {
                    assert(self.nodes@[a] == before[a]);
                    assert(self.nodes@[b] == before[b]);
                } else {
                    assert(self.nodes@[a] == before[a]);
                    assert(!(before[a].node.eq_spec(&node)));
                }
            }
            assert forall|a: int| 0 <= a < self.nodes@.len() implies parent_wf(
                (#[trigger] self.nodes@[a]).parent1,
                a,
            ) && parent_wf(self.nodes@[a].parent2, a) by {
                if a < before.len() {
                    assert(self.nodes@[a] == before[a]);
                    assert(parent_wf(before[a].parent1, a));
                    assert(parent_wf(before[a].parent2, a));
                }
            }
        }
        DagNodeId((offset + 1) as u32)
    }

    /// Look up a node by key: its handle and a reference to its payload.
    pub fn get(&self, node: &N) -> (r: Option<(DagNodeId, &T)>)
        requires
            self.wf(),
            N::obeys_eq_spec(),
        ensures
            match self.spec_find(*node) {
                Some(k) => r matches Some((id, d)) && id.0 == k + 1 && *d == self.nodes@[k].data,
                None => r is None,
            },
    {
        match self.find_index(node) {
            Some(k) => {
                proof {
                    lemma_find_from_props(self.nodes@, *node, 0);
                }
                Some((DagNodeId((k + 1) as u32), &self.nodes[k].data))
            },
            None => None,
        }
    }

    /// Look up a node by key: its handle and a mutable reference to its
    /// payload.
    pub fn get_mut(&mut self, node: &N) -> (r: Option<(DagNodeId, &mut T)>)
        requires
            old(self).wf(),
            N::obeys_eq_spec(),
        ensures
            match old(self).spec_find(*node) {
                Some(k) => r matches Some((id, d)) && id.0 == k + 1 && *d == old(
                    self,
                ).nodes@[k].data && final(self).nodes@ == old(self).nodes@.update(
                    k,
                    DagNode {
                        node: old(self).nodes@[k].node,
                        parent1: old(self).nodes@[k].parent1,
                        parent2: old(self).nodes@[k].parent2,
                        data: *final(d),
                    },
                ),
                None => r is None && final(self).nodes@ == old(self).nodes@,
            },
    {
        match self.find_index(node) {
            Some(k) => {
                proof {
                    lemma_find_from_props(self.nodes@, *node, 0);
                }
                let entry = &mut self.nodes[k];
                Some((DagNodeId((k + 1) as u32), &mut entry.data))
            },
            None => None,
        }
    }

    /// The key and payload of the node a handle addresses.
    pub fn get_by_id(&self, id: DagNodeId) -> (r: (&N, &T))
        requires
            1 <= id.0 <= self.nodes@.len(),
        ensures
            *r.0 == self.nodes@[id.0 - 1].node,
            *r.1 == self.nodes@[id.0 - 1].data,
    {
        let off = id.to_offset();
        let node = &self.nodes[off];
        (&node.node, &node.data)
    }

    /// The parent handles of the node a handle addresses.
    pub fn parents_of(&self, id: DagNodeId) -> (r: (Option<DagNodeId>, Option<DagNodeId>))
        requires
            1 <= id.0 <= self.nodes@.len(),
        ensures
            r.0 == self.nodes@[id.0 - 1].parent1,
            r.1 == self.nodes@[id.0 - 1].parent2,
    {
        let off = id.to_offset();
        (self.nodes[off].parent1, self.nodes[off].parent2)
    }

    /// A mutable reference to the payload of the node a handle addresses.
    pub fn data_mut_by_id(&mut self, id: DagNodeId) -> (d: &mut T)
        requires
            1 <= id.0 <= old(self).nodes@.len(),
        ensures
            *d == old(self).nodes@[id.0 - 1].data,
            final(self).nodes@ == old(self).nodes@.update(
                id.0 - 1,
                DagNode {
                    node: old(self).nodes@[id.0 - 1].node,
                    parent1: old(self).nodes@[id.0 - 1].parent1,
                    parent2: old(self).nodes@[id.0 - 1].parent2,
                    data: *final(d),
                },
            ),
    {
        let off = id.to_offset();
        let entry = &mut self.nodes[off];
        &mut entry.data
    }

    /// All nodes, in insertion order.
    pub fn iter(&self) -> (r: &Vec<DagNode<N, T>>)
        ensures
            r@ == self.nodes@,
    {
        &self.nodes
    }

    /// All nodes, in insertion order, mutably.
    pub fn iter_mut(&mut self) -> (r: &mut Vec<DagNode<N, T>>)
        ensures
            r@ == old(self).nodes@,
            final(self).nodes@ == final(r)@,
    {
        &mut self.nodes
    }
}

/// The number of set bits of a seen-set.
pub open spec fn count_true(s: Seq<bool>) -> int
    decreases s.len(),
{
    if s.len() == 0 {
        0
    } else {
        count_true(s.drop_last()) + if s.last() {
            1int
        } else {
            0int
        }
    }
}

proof fn lemma_count_true_bounds(s: Seq<bool>)
    ensures
        0 <= count_true(s) <= s.len(),
    decreases s.len(),
{
    if s.len() > 0 {
        lemma_count_true_bounds(s.drop_last());
    }
}

proof fn lemma_count_true_update(s: Seq<bool>, i: int)
    requires
        0 <= i < s.len(),
        !s[i],
    ensures
        count_true(s.update(i, true)) == count_true(s) + 1,
    decreases s.len(),
{
    let u = s.update(i, true);
    if i == s.len() - 1 {
        assert(u.drop_last() =~= s.drop_last());
        assert(u.last());
        assert(!s.last());
    } else {
        assert(u.drop_last() =~= s.drop_last().update(i, true));
        assert(u.last() == s.last());
        lemma_count_true_update(s.drop_last(), i);
    }
}

/// The node at offset `p` is a recorded parent of the node at offset `c`.
pub open spec fn links_to<N, T>(nodes: Seq<DagNode<N, T>>, p: int, c: int) -> bool {
    &&& 0 <= c < nodes.len()
    &&& ((nodes[c].parent1 matches Some(id) && id.0 - 1 == p) || (nodes[c].parent2 matches Some(
    id,
    ) && id.0 - 1 == p))
}

/// Offset `i` lies on a parent chain from offset `s`: it is `s` itself or an
/// ancestor of it. This bounds what a parent-directed traversal can reach.
pub open spec fn reachable_up<N, T>(nodes: Seq<DagNode<N, T>>, s: int, i: int) -> bool
    decreases s when s >= 0
{
    i == s || exists|p: int| 0 <= p < s && #[trigger] links_to(nodes, p, s) && reachable_up(
        nodes,
        p,
        i,
    )
}

/// Offset `i` lies on a child chain from offset `s` running only through
/// offsets at or after `s`. This bounds what a child-directed traversal can
/// reach.
pub open spec fn reachable_down<N, T>(nodes: Seq<DagNode<N, T>>, s: int, i: int) -> bool
    decreases i when i >= 0
{
    i == s || exists|p: int| 0 <= p && s <= p < i && #[trigger] links_to(nodes, p, i)
        && reachable_down(nodes, s, p)
}

/// A parent of a node on a parent chain from `s` is itself on that chain.
proof fn lemma_reachable_up_step<N, T>(nodes: Seq<DagNode<N, T>>, s: int, i: int, p: int)
    requires
        0 <= s,
        reachable_up(nodes, s, i),
        links_to(nodes, p, i),
        0 <= p < i,
    ensures
        reachable_up(nodes, s, p),
    decreases s,
{
    if i == s {
        assert(reachable_up(nodes, p, p));
    } else {
        let q = choose|q: int| 0 <= q < s && #[trigger] links_to(nodes, q, s) && reachable_up(
            nodes,
            q,
            i,
        );
        lemma_reachable_up_step(nodes, q, i, p);
    }
}

/// Two DAGs with the same keys and parent links everywhere.
pub open spec fn same_shape<N, T>(a: Seq<DagNode<N, T>>, b: Seq<DagNode<N, T>>) -> bool {
    &&& a.len() == b.len()
    &&& forall|i: int| 0 <= i < a.len() ==> (#[trigger] a[i]).node == b[i].node && a[i].parent1
        == b[i].parent1 && a[i].parent2 == b[i].parent2
}

impl<N: PartialEq + PartialEqSpec, T> Dag<N, T> {
    /// Walk from `start` towards parents (breadth-first, each node at most
    /// once) or towards children (one forward pass over the array, relying on
    /// parents preceding children), handing each reached node's payload to
    /// the visitor, which decides whether to continue past it. A `start` not
    /// in the DAG reaches nothing. Keys and parent links are untouched, and
    /// so is the payload of every node that no chain of links connects to
    /// `start` in the chosen direction.
    pub fn traverse_mut<V: DagVisitor<N, T>>(
        &mut self,
        start: &N,
        direction: Traversal,
        visitor: &mut V,
    )
        requires
            old(self).wf(),
            N::obeys_eq_spec(),
        ensures
            final(self).wf(),
            same_shape(old(self).nodes@, final(self).nodes@),
            match old(self).spec_find(*start) {
                Some(k) => forall|i: int| 0 <= i < old(self).nodes@.len() && !(match direction {
                    Traversal::Parents => reachable_up(old(self).nodes@, k, i),
                    Traversal::Children => reachable_down(old(self).nodes@, k, i),
                }) ==> (#[trigger] final(self).nodes@[i]).data == old(self).nodes@[i].data,
                None => final(self).nodes@ == old(self).nodes@,
            },
    {
        let found = self.find_index(start);
        proof {
            lemma_find_from_props(self.nodes@, *start, 0);
        }
        match (direction, found) {
            (Traversal::Parents, Some(k)) => {
                self.traverse_parents_mut(DagNodeId((k + 1) as u32), visitor);
            },
            (Traversal::Children, Some(k)) => {
                self.traverse_children_mut(DagNodeId((k + 1) as u32), visitor);
            },
            _ => {
                proof {
                    assert(same_shape(old(self).nodes@, self.nodes@));
                }
            },
        }
    }

    fn traverse_parents_mut<V: DagVisitor<N, T>>(&mut self, start: DagNodeId, visitor: &mut V)
        requires
            old(self).wf(),
            1 <= start.0 <= old(self).nodes@.len(),
        ensures
            final(self).wf(),
            same_shape(old(self).nodes@, final(self).nodes@),
            forall|i: int| 0 <= i < old(self).nodes@.len() && !reachable_up(
                old(self).nodes@,
                start.0 - 1,
                i,
            ) ==> (#[trigger] final(self).nodes@[i]).data == old(self).nodes@[i].data,
    {
        let ghost orig = old(self).nodes@;
        let n = self.nodes.len();
        let mut seen = bits_new(n, false);
        let so = start.to_offset();
        bits_set(&mut seen, so, true);
        proof {
            lemma_count_true_bounds(bit_vec_bits(&seen));
        }
        let mut queue: Vec<DagNodeId> = Vec::new();
        queue.push(start);
        let mut head: usize = 0;
        let ghost so_i = start.0 - 1;
        proof {
            assert(reachable_up(orig, so_i, so_i));
        }
        while head < queue.len()
            invariant
                self.wf(),
                same_shape(orig, self.nodes@),
                n == self.nodes@.len(),
                so_i == start.0 - 1,
                0 <= so_i < n,
                bit_vec_bits(&seen).len() == n,
                0 <= head <= queue@.len(),
                forall|k: int| 0 <= k < queue@.len() ==> 1 <= (#[trigger] queue@[k]).0 <= n,
                forall|k: int| 0 <= k < queue@.len() ==> reachable_up(
                    orig,
                    so_i,
                    (#[trigger] queue@[k]).0 - 1,
                ),
                forall|i: int| 0 <= i < n && !reachable_up(orig, so_i, i) ==> (
                #[trigger] self.nodes@[i]).data == orig[i].data,
                0 <= count_true(bit_vec_bits(&seen)) <= n,
            decreases n - count_true(bit_vec_bits(&seen)), queue@.len() - head,
        {
            let id = queue[head];
            head = head + 1;
            let off = id.to_offset();
            let (p1, p2) = self.parents_of(id);
            proof {
                assert(reachable_up(orig, so_i, off as int));
            }
            let entry = &mut self.nodes[off];
            let cont = visitor.visit(&entry.node, &mut entry.data);
            proof {
                assert(same_shape(orig, self.nodes@));
            }
            if cont {
                match p1 {
                    Some(pid) => {
                        let poff = pid.to_offset();
                        proof {
                            assert(orig[off as int].parent1 == Some(pid));
                            assert(links_to(orig, poff as int, off as int));
                            assert(parent_wf(self.nodes@[off as int].parent1, off as int));
                            lemma_reachable_up_step(orig, so_i, off as int, poff as int);
                        }
                        if !bits_get(&seen, poff) {
                            proof {
                                lemma_count_true_update(bit_vec_bits(&seen), poff as int);
                                lemma_count_true_bounds(bit_vec_bits(&seen));
                            }
                            bits_set(&mut seen, poff, true);
                            proof {
                                lemma_count_true_bounds(bit_vec_bits(&seen));
                            }
                            queue.push(pid);
                        }
                    },
                    None => {
                    },
                }
                match p2 {
                    Some(pid) => {
                        let poff = pid.to_offset();
                        proof {
                            assert(orig[off as int].parent2 == Some(pid));
                            assert(links_to(orig, poff as int, off as int));
                            assert(parent_wf(self.nodes@[off as int].parent2, off as int));
                            lemma_reachable_up_step(orig, so_i, off as int, poff as int);
                        }
                        if !bits_get(&seen, poff) {
                            proof {
                                lemma_count_true_update(bit_vec_bits(&seen), poff as int);
                                lemma_count_true_bounds(bit_vec_bits(&seen));
                            }
                            bits_set(&mut seen, poff, true);
                            proof {
                                lemma_count_true_bounds(bit_vec_bits(&seen));
                            }
                            queue.push(pid);
                        }
                    },
                    None => {
                    },
                }
            }
        }
    }

    fn traverse_children_mut<V: DagVisitor<N, T>>(&mut self, start: DagNodeId, visitor: &mut V)
        requires
            old(self).wf(),
            1 <= start.0 <= old(self).nodes@.len(),
        ensures
            final(self).wf(),
            same_shape(old(self).nodes@, final(self).nodes@),
            forall|i: int| 0 <= i < old(self).nodes@.len() && !reachable_down(
                old(self).nodes@,
                start.0 - 1,
                i,
            ) ==> (#[trigger] final(self).nodes@[i]).data == old(self).nodes@[i].data,
    {
        let ghost orig = old(self).nodes@;
        let n = self.nodes.len();
        let so = start.to_offset();
        let ghost so_i = so as int;
        let mut seen = bits_new(n - so, false);
        let mut idx: usize = so;
        while idx < n
            invariant
                self.wf(),
                same_shape(orig, self.nodes@),
                n == self.nodes@.len(),
                so < n,
                so == start.0 - 1,
                so_i == so,
                so <= idx,
                bit_vec_bits(&seen).len() == n - so,
                forall|jj: int| 0 <= jj < n - so_i && #[trigger] bit_vec_bits(&seen)[jj] ==> (so_i
                    + jj < idx && reachable_down(orig, so_i, so_i + jj)),
                forall|i: int| 0 <= i < n && !reachable_down(orig, so_i, i) ==> (
                #[trigger] self.nodes@[i]).data == orig[i].data,
            decreases n - idx,
        {
            let id = DagNodeId((idx + 1) as u32);
            let (p1, p2) = self.parents_of(id);
            let mut qualify = idx == so;
            proof {
                if qualify {
                    assert(reachable_down(orig, so_i, idx as int));
                }
            }
            if !qualify {
                match p1 {
                    Some(pid) => {
                        if pid.0 >= start.0 {
                            let poff = pid.to_offset();
                            if bits_get(&seen, poff - so) {
                                qualify = true;
                                proof {
                                    assert(orig[idx as int].parent1 == Some(pid));
                                    assert(links_to(orig, poff as int, idx as int));
                                    assert(bit_vec_bits(&seen)[poff - so_i]);
                                    assert(reachable_down(orig, so_i, poff as int));
                                    assert(parent_wf(
                                        self.nodes@[idx as int].parent1,
                                        idx as int,
                                    ));
                                    assert(reachable_down(orig, so_i, idx as int));
                                }
                            }
                        }
                    },
                    None => {
                    },
                }
            }
            if !qualify {
                match p2 {
                    Some(pid) => {
                        if pid.0 >= start.0 {
                            let poff = pid.to_offset();
                            if bits_get(&seen, poff - so) {
                                qualify = true;
                                proof {
                                    assert(orig[idx as int].parent2 == Some(pid));
                                    assert(links_to(orig, poff as int, idx as int));
                                    assert(bit_vec_bits(&seen)[poff - so_i]);
                                    assert(reachable_down(orig, so_i, poff as int));
                                    assert(parent_wf(
                                        self.nodes@[idx as int].parent2,
                                        idx as int,
                                    ));
                                    assert(reachable_down(orig, so_i, idx as int));
                                }
                            }
                        }
                    },
                    None => {
                    },
                }
            }
            if qualify {
                proof {
                    assert(reachable_down(orig, so_i, idx as int));
                }
                let entry = &mut self.nodes[idx];
                let cont = visitor.visit(&entry.node, &mut entry.data);
                if cont {
                    let ghost prior = bit_vec_bits(&seen);
                    bits_set(&mut seen, idx - so, true);
                    proof {
                        assert forall|jj: int|
                            0 <= jj < n - so_i && #[trigger] bit_vec_bits(&seen)[jj] implies (so_i
                            + jj < idx + 1 && reachable_down(orig, so_i, so_i + jj)) by {
                            if so_i + jj != idx {
                                assert(bit_vec_bits(&seen)[jj] == prior[jj]);
                            } else {
                                assert(reachable_down(orig, so_i, idx as int));
                            }
                        }
                    }
                }
            }
            idx = idx + 1;
        }
    }
}

/// Splitting the found-parent computation at `i`.
proof fn lemma_found_parents_split<N: PartialEqSpec, T>(
    s: Seq<DagNode<N, T>>,
    parents: Seq<N>,
    i: int,
)
    requires
        0 <= i <= parents.len(),
    ensures
        spec_found_parents(s, parents) == spec_found_parents(s, parents.take(i))
            + spec_found_parents(s, parents.skip(i)),
    decreases i,
{
    if i == 0 {
        assert(parents.take(0) =~= Seq::<N>::empty());
        assert(parents.skip(0) =~= parents);
        assert(spec_found_parents(s, parents.take(0)) =~= Seq::<DagNodeId>::empty());
        assert(spec_found_parents(s, parents) =~= spec_found_parents(s, parents.take(0))
            + spec_found_parents(s, parents.skip(0)));
    } else {
        lemma_found_parents_split(s, parents.drop_first(), i - 1);
        assert(parents.take(i)[0] == parents[0]);
        assert(parents.take(i).drop_first() =~= parents.drop_first().take(i - 1));
        assert(parents.skip(i) =~= parents.drop_first().skip(i - 1));
        assert(spec_found_parents(s, parents) =~= spec_found_parents(s, parents.take(i))
            + spec_found_parents(s, parents.skip(i)));
    }
}

} // verus!
