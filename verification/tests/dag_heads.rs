use hg_store::dag::{Dag, DagVisitor, Traversal};
use hg_store::heads::{ChangesetHeads, ChangesetInfo};
use hg_store::oid::HgChangesetId;

fn id(fill: u8) -> HgChangesetId {
    HgChangesetId::from_raw_bytes([fill; 20])
}

#[test]
fn linear_chain_leaves_last_head() {
    let mut heads = ChangesetHeads::new();
    let (a, b, c) = (id(1), id(2), id(3));
    heads.add(&a, &[], b"default");
    heads.add(&b, &[&a], b"default");
    heads.add(&c, &[&b], b"default");
    let hs = heads.heads();
    assert_eq!(hs.len(), 1);
    assert_eq!(hs[0].raw, c.raw);
    let bh = heads.branch_heads();
    assert_eq!(bh.len(), 1);
    assert_eq!(bh[0].0.raw, c.raw);
    assert_eq!(bh[0].1, b"default".to_vec());
}

#[test]
fn cross_branch_child_keeps_branch_head_only() {
    // A on one branch, its only child B on another: A stays a branch head,
    // but heads() drops it since it has a child
    let mut heads = ChangesetHeads::new();
    let (a, b) = (id(1), id(2));
    heads.add(&a, &[], b"one");
    heads.add(&b, &[&a], b"two");
    let bh = heads.branch_heads();
    assert_eq!(bh.len(), 2);
    assert_eq!(bh[0].0.raw, a.raw);
    assert_eq!(bh[1].0.raw, b.raw);
    let hs = heads.heads();
    assert_eq!(hs.len(), 1);
    assert_eq!(hs[0].raw, b.raw);
}

#[test]
fn merge_evicts_both_parents_on_branch() {
    let mut heads = ChangesetHeads::new();
    let (a, b, m) = (id(1), id(2), id(3));
    heads.add(&a, &[], b"default");
    heads.add(&b, &[], b"default");
    heads.add(&m, &[&a, &b], b"default");
    let hs = heads.heads();
    assert_eq!(hs.len(), 1);
    assert_eq!(hs[0].raw, m.raw);
}

#[test]
fn absent_parents_are_skipped() {
    // a graft may be partial: a parent the DAG does not know is skipped
    let mut heads = ChangesetHeads::new();
    let (a, ghost_parent) = (id(1), id(9));
    heads.add(&a, &[&ghost_parent], b"default");
    let hs = heads.heads();
    assert_eq!(hs.len(), 1);
    assert_eq!(hs[0].raw, a.raw);
}

#[test]
fn dag_lookup_and_payloads() {
    let mut dag: Dag<HgChangesetId, ChangesetInfo> = Dag::new();
    let a = id(1);
    let aid = dag.add(
        a,
        &[],
        ChangesetInfo { has_children: false, branch: b"default".to_vec() },
    );
    assert_eq!(aid.0, 1);
    let (found, data) = dag.get(&a).unwrap();
    assert_eq!(found.0, 1);
    assert!(!data.has_children);
    let (node, data) = dag.get_by_id(aid);
    assert_eq!(node.raw, a.raw);
    assert_eq!(data.branch, b"default".to_vec());
    assert!(dag.get(&id(9)).is_none());
    // mutation through get_mut is visible afterwards
    let (_, data) = dag.get_mut(&a).unwrap();
    data.has_children = true;
    assert!(dag.get(&a).unwrap().1.has_children);
    assert_eq!(dag.iter().len(), 1);
}

struct Collect {
    seen: Vec<[u8; 20]>,
}

impl DagVisitor<HgChangesetId, ChangesetInfo> for Collect {
    fn visit(&mut self, node: &HgChangesetId, _data: &mut ChangesetInfo) -> bool {
        self.seen.push(node.raw);
        true
    }
}

#[test]
fn traversal_walks_parents_and_children() {
    let mut heads = ChangesetHeads::new();
    let (a, b, c) = (id(1), id(2), id(3));
    heads.add(&a, &[], b"default");
    heads.add(&b, &[&a], b"default");
    heads.add(&c, &[&b], b"default");
    let mut up = Collect { seen: Vec::new() };
    heads.dag.traverse_mut(&c, Traversal::Parents, &mut up);
    assert_eq!(up.seen, vec![c.raw, b.raw, a.raw]);
    let mut down = Collect { seen: Vec::new() };
    heads.dag.traverse_mut(&a, Traversal::Children, &mut down);
    assert_eq!(down.seen, vec![a.raw, b.raw, c.raw]);
}
