//! The changegroup import pipeline: an ordered stream of diff chunks
//! (changesets, then manifests, then per-file groups), each expressed against
//! a reference revision, driving reconstruction, storage and the online
//! root/head consistency heuristic.

use vstd::prelude::*;

use crate::changeset::RawHgChangeset;
use crate::heads::ChangesetHeads;
use crate::oid::{CommitId, HgChangesetId, HgFileId, spec_null_oid};
use crate::patch::{apply_hunks, hunks_view, spec_apply, PatchInfo};
use crate::store::{GraftError, Store};

verus! {

/// One revision chunk of the foreign wire format: the target id, its two
/// parents, the revision the diff is expressed against, and the diff hunks.
/// The same shape carries changesets, manifests and file revisions; the ids
/// are twenty-byte foreign ids of the respective kind.
#[derive(Debug)]
pub struct RevChunk {
    pub node: HgChangesetId,
    pub parent1: HgChangesetId,
    pub parent2: HgChangesetId,
    pub delta_node: HgChangesetId,
    pub hunks: Vec<PatchInfo>,
}

/// Why an import aborts.
#[derive(Debug)]
pub enum ImportError {
    /// A chunk's hunks fall outside or before the consumed range of its
    /// reference: fatal, names the offending changeset.
    MalformedChunk(HgChangesetId),
    /// A delta reference that cannot be resolved to stored bytes.
    MissingReference(HgChangesetId),
    /// Several native commits could stand for the changeset: fatal, lists
    /// every candidate.
    AmbiguousGraft(HgChangesetId, Vec<CommitId>),
}

/// The diagnostic prefix `malformed `.
pub open spec fn spec_msg_malformed() -> Seq<u8> {
    seq![0x6Du8, 0x61u8, 0x6Cu8, 0x66u8, 0x6Fu8, 0x72u8, 0x6Du8, 0x65u8, 0x64u8, 0x20u8]
}

/// The diagnostic prefix `missing `.
pub open spec fn spec_msg_missing() -> Seq<u8> {
    seq![0x6Du8, 0x69u8, 0x73u8, 0x73u8, 0x69u8, 0x6Eu8, 0x67u8, 0x20u8]
}

/// The diagnostic prefix `ambiguous `.
pub open spec fn spec_msg_ambiguous() -> Seq<u8> {
    seq![0x61u8, 0x6Du8, 0x62u8, 0x69u8, 0x67u8, 0x75u8, 0x6Fu8, 0x75u8, 0x73u8, 0x20u8]
}

impl ImportError {
    /// A diagnostic line: the error's prefix, then the hex spelling of the
    /// offending id.
    pub fn message(&self) -> (r: Vec<u8>)
        ensures
            r@ == match *self {
                ImportError::MalformedChunk(id) => spec_msg_malformed() + crate::bytes::spec_hex(
                    id@,
                ),
                ImportError::MissingReference(id) => spec_msg_missing() + crate::bytes::spec_hex(
                    id@,
                ),
                ImportError::AmbiguousGraft(id, _) => spec_msg_ambiguous()
                    + crate::bytes::spec_hex(id@),
            },
    {
        let mut out: Vec<u8> = Vec::new();
        match self {
            ImportError::MalformedChunk(id) => {
                push_word_malformed(&mut out);
                let h = id.to_hex();
                crate::bytes::append_bytes(&mut out, h.as_slice());
                proof {
                    assert(out@ =~= spec_msg_malformed() + crate::bytes::spec_hex(id@));
                }
            },
            ImportError::MissingReference(id) => {
                push_word_missing(&mut out);
                let h = id.to_hex();
                crate::bytes::append_bytes(&mut out, h.as_slice());
                proof {
                    assert(out@ =~= spec_msg_missing() + crate::bytes::spec_hex(id@));
                }
            },
            ImportError::AmbiguousGraft(id, _) => {
                push_word_ambiguous(&mut out);
                let h = id.to_hex();
                crate::bytes::append_bytes(&mut out, h.as_slice());
                proof {
                    assert(out@ =~= spec_msg_ambiguous() + crate::bytes::spec_hex(id@));
                }
            },
        }
        out
    }
}

/// `malformed `
fn push_word_malformed(out: &mut Vec<u8>)
    ensures
        final(out)@ == old(out)@ + spec_msg_malformed(),
{
    let mut w: Vec<u8> = Vec::new();
    w.push(0x6D);
    w.push(0x61);
    w.push(0x6C);
    w.push(0x66);
    w.push(0x6F);
    w.push(0x72);
    w.push(0x6D);
    w.push(0x65);
    w.push(0x64);
    w.push(0x20);
    proof {
        assert(w@ =~= spec_msg_malformed());
    }
    crate::bytes::append_bytes(out, w.as_slice());
}

/// `missing `
fn push_word_missing(out: &mut Vec<u8>)
    ensures
        final(out)@ == old(out)@ + spec_msg_missing(),
{
    let mut w: Vec<u8> = Vec::new();
    w.push(0x6D);
    w.push(0x69);
    w.push(0x73);
    w.push(0x73);
    w.push(0x69);
    w.push(0x6E);
    w.push(0x67);
    w.push(0x20);
    proof {
        assert(w@ =~= spec_msg_missing());
    }
    crate::bytes::append_bytes(out, w.as_slice());
}

/// `ambiguous `
fn push_word_ambiguous(out: &mut Vec<u8>)
    ensures
        final(out)@ == old(out)@ + spec_msg_ambiguous(),
{
    let mut w: Vec<u8> = Vec::new();
    w.push(0x61);
    w.push(0x6D);
    w.push(0x62);
    w.push(0x69);
    w.push(0x67);
    w.push(0x75);
    w.push(0x6F);
    w.push(0x75);
    w.push(0x73);
    w.push(0x20);
    proof {
        assert(w@ =~= spec_msg_ambiguous());
    }
    crate::bytes::append_bytes(out, w.as_slice());
}

/// Apply one chunk's hunks over its reference's full bytes. A hunk starting
/// before the previous hunk's end or beyond the reference, or a final end
/// beyond the reference, is a fatal malformed-chunk error naming the
/// chunk's target id; it never silently truncates.
pub fn apply_chunk(reference: &[u8], chunk: &RevChunk) -> (r: Result<Vec<u8>, ImportError>)
    ensures
        match r {
            Ok(out) => spec_apply(reference@, hunks_view(chunk.hunks@)) == Some(out@),
            Err(e) => spec_apply(reference@, hunks_view(chunk.hunks@)) is None && (e matches
                ImportError::MalformedChunk(id) && id@ == chunk.node@),
        },
{
    match apply_hunks(reference, &chunk.hunks) {
        Some(out) => Ok(out),
        None => Err(ImportError::MalformedChunk(chunk.node)),
    }
}

/// The transient per-import tracker of file roots and heads for the
/// consistency heuristic: each tracked file id with its two recorded
/// parents.
#[derive(Debug)]
pub struct FileTracker {
    pub entries: Vec<(HgFileId, HgFileId, HgFileId)>,
}

/// The views of the tracked entries.
pub open spec fn tracker_view(t: FileTracker) -> Seq<(Seq<u8>, Seq<u8>, Seq<u8>)> {
    t.entries@.map_values(|e: (HgFileId, HgFileId, HgFileId)| (e.0@, e.1@, e.2@))
}

/// The index of a tracked file id.
pub open spec fn spec_tracker_find(
    es: Seq<(Seq<u8>, Seq<u8>, Seq<u8>)>,
    id: Seq<u8>,
    i: int,
) -> Option<int>
    decreases es.len() - i,
{
    if i < 0 || i >= es.len() {
        None
    } else if es[i].0 == id {
        Some(i)
    } else {
        spec_tracker_find(es, id, i + 1)
    }
}

/// Insert or overwrite a tracked entry.
pub open spec fn spec_tracker_insert(
    es: Seq<(Seq<u8>, Seq<u8>, Seq<u8>)>,
    e: (Seq<u8>, Seq<u8>, Seq<u8>),
) -> Seq<(Seq<u8>, Seq<u8>, Seq<u8>)> {
    match spec_tracker_find(es, e.0, 0) {
        Some(i) => es.update(i, e),
        None => es.push(e),
    }
}

/// Drop a tracked entry.
pub open spec fn spec_tracker_remove(
    es: Seq<(Seq<u8>, Seq<u8>, Seq<u8>)>,
    id: Seq<u8>,
) -> Seq<(Seq<u8>, Seq<u8>, Seq<u8>)> {
    match spec_tracker_find(es, id, 0) {
        Some(i) => es.take(i) + es.skip(i + 1),
        None => es,
    }
}

/// Evict a parent that is no longer an unresolved root: tracked with parents
/// other than two nulls.
pub open spec fn spec_maybe_evict(
    es: Seq<(Seq<u8>, Seq<u8>, Seq<u8>)>,
    p: Seq<u8>,
) -> Seq<(Seq<u8>, Seq<u8>, Seq<u8>)> {
    if p == spec_null_oid() {
        es
    } else {
        match spec_tracker_find(es, p, 0) {
            Some(i) => if es[i].1 == spec_null_oid() && es[i].2 == spec_null_oid() {
                es
            } else {
                spec_tracker_remove(es, p)
            },
            None => es,
        }
    }
}

/// The tracking decision for one file revision: once the store has prior
/// history or a parent is already tracked, the revision is tracked and any
/// non-root parent evicted; otherwise a parentless revision whose first hunk
/// writes offset zero with bytes opening with the metadata marker starts a
/// tracked lineage.
pub open spec fn spec_track_step(
    es: Seq<(Seq<u8>, Seq<u8>, Seq<u8>)>,
    has_metadata: bool,
    node: Seq<u8>,
    p1: Seq<u8>,
    p2: Seq<u8>,
    first_hunk: Option<(int, int, Seq<u8>)>,
) -> Seq<(Seq<u8>, Seq<u8>, Seq<u8>)> {
    if has_metadata || spec_tracker_find(es, p1, 0) is Some || spec_tracker_find(es, p2, 0)
        is Some {
        spec_maybe_evict(spec_maybe_evict(spec_tracker_insert(es, (node, p1, p2)), p1), p2)
    } else if p1 == spec_null_oid() && p2 == spec_null_oid() && (first_hunk matches Some(h)
        && h.0 == 0 && h.2.len() >= 2 && h.2[0] == 0x01 && h.2[1] == 0x0A) {
        spec_tracker_insert(es, (node, p1, p2))
    } else {
        es
    }
}

impl FileTracker {
    /// An empty tracker.
    pub fn new() -> (r: FileTracker)
        ensures
            tracker_view(r) == Seq::<(Seq<u8>, Seq<u8>, Seq<u8>)>::empty(),
    {
        let r = FileTracker { entries: Vec::new() };
        proof {
            assert(tracker_view(r) =~= Seq::<(Seq<u8>, Seq<u8>, Seq<u8>)>::empty());
        }
        r
    }

    /// The index of a tracked id.
    fn find(&self, id: &HgFileId) -> (r: Option<usize>)
        ensures
            match r {
                Some(k) => spec_tracker_find(tracker_view(*self), id@, 0) == Some(k as int),
                None => spec_tracker_find(tracker_view(*self), id@, 0) is None,
            },
    {
        let ghost ev = tracker_view(*self);
        let mut i: usize = 0;
        while i < self.entries.len()
            invariant
                0 <= i <= self.entries@.len(),
                ev == tracker_view(*self),
                ev.len() == self.entries@.len(),
                spec_tracker_find(ev, id@, 0) == spec_tracker_find(ev, id@, i as int),
            decreases self.entries@.len() - i,
        {
            proof {
                assert(ev[i as int] == (self.entries@[i as int].0@, self.entries@[i as int].1@, self.entries@[i as int].2@));
            }
            if self.entries[i].0 == *id {
                return Some(i);
            }
            i = i + 1;
        }
        None
    }

    /// Insert or overwrite the entry for `node`.
    fn insert(&mut self, node: HgFileId, p1: HgFileId, p2: HgFileId)
        ensures
            tracker_view(*final(self)) == spec_tracker_insert(
                tracker_view(*old(self)),
                (node@, p1@, p2@),
            ),
    {
        let ghost before = tracker_view(*old(self));
        match self.find(&node) {
            Some(k) => {
                proof {
                    lemma_tracker_find_props(before, node@, 0);
                }
                self.entries[k] = (node, p1, p2);
                proof {
                    assert(tracker_view(*self) =~= before.update(k as int, (node@, p1@, p2@)));
                }
            },
            None => {
                self.entries.push((node, p1, p2));
                proof {
                    assert(tracker_view(*self) =~= before.push((node@, p1@, p2@)));
                }
            },
        }
    }

    /// Drop the entry for `id`, if present.
    fn remove(&mut self, id: &HgFileId)
        ensures
            tracker_view(*final(self)) == spec_tracker_remove(tracker_view(*old(self)), id@),
    {
        let ghost before = tracker_view(*old(self));
        match self.find(id) {
            Some(k) => {
                proof {
                    lemma_tracker_find_props(before, id@, 0);
                }
                self.entries.remove(k);
                proof {
                    assert(tracker_view(*self) =~= before.take(k as int) + before.skip(
                        k as int + 1,
                    ));
                }
            },
            None => {
            },
        }
    }

    /// Track one file revision per the heuristic.
    pub fn track(&mut self, has_metadata: bool, chunk: &RevChunk)
        ensures
            tracker_view(*final(self)) == spec_track_step(
                tracker_view(*old(self)),
                has_metadata,
                chunk.node@,
                chunk.parent1@,
                chunk.parent2@,
                if chunk.hunks@.len() > 0 {
                    Some(chunk.hunks@[0]@)
                } else {
                    None
                },
            ),
    {
        let node = HgFileId::from_raw_bytes(*chunk.node.as_raw_bytes());
        let p1 = HgFileId::from_raw_bytes(*chunk.parent1.as_raw_bytes());
        let p2 = HgFileId::from_raw_bytes(*chunk.parent2.as_raw_bytes());
        let tracked1 = {
            let f = self.find(&p1);
            match f {
                Some(_) => true,
                None => false,
            }
        };
        let tracked2 = {
            let f = self.find(&p2);
            match f {
                Some(_) => true,
                None => false,
            }
        };
        if has_metadata || tracked1 || tracked2 {
            self.insert(node, p1, p2);
            self.evict(&p1);
            self.evict(&p2);
        } else {
            let null_file = HgFileId::null();
            if p1 == null_file && p2 == null_file && chunk.hunks.len() > 0 {
                let h = &chunk.hunks[0];
                if h.start == 0 && h.data.len() >= 2 && h.data[0] == 0x01 && h.data[1] == 0x0A {
                    self.insert(node, p1, p2);
                    proof {
                        assert(chunk.hunks@[0]@ == (h.start as int, h.end as int, h.data@));
                    }
                }
            }
        }
    }

    /// Evict a parent that is tracked with known parents.
    fn evict(&mut self, p: &HgFileId)
        ensures
            tracker_view(*final(self)) == spec_maybe_evict(tracker_view(*old(self)), p@),
    {
        let null_file = HgFileId::null();
        if *p == null_file {
            return ;
        }
        let ghost before = tracker_view(*old(self));
        match self.find(p) {
            Some(k) => {
                proof {
                    lemma_tracker_find_props(before, p@, 0);
                }
                let is_root = self.entries[k].1 == null_file && self.entries[k].2 == null_file;
                proof {
                    assert(before[k as int].1 == self.entries@[k as int].1@);
                    assert(before[k as int].2 == self.entries@[k as int].2@);
                }
                if !is_root {
                    self.remove(p);
                }
            },
            None => {
            },
        }
    }

    /// The tracked entries, for the post-import check.
    pub fn entries(&self) -> (r: &Vec<(HgFileId, HgFileId, HgFileId)>)
        ensures
            r@ == self.entries@,
    {
        &self.entries
    }
}

/// What `spec_tracker_find` returns: the first match.
proof fn lemma_tracker_find_props(es: Seq<(Seq<u8>, Seq<u8>, Seq<u8>)>, id: Seq<u8>, i: int)
    requires
        0 <= i <= es.len(),
    ensures
        match spec_tracker_find(es, id, i) {
            Some(k) => i <= k < es.len() && es[k].0 == id,
            None => forall|j: int| i <= j < es.len() ==> (#[trigger] es[j]).0 != id,
        },
    decreases es.len() - i,
{
    if i < es.len() && es[i].0 != id {
        lemma_tracker_find_props(es, id, i + 1);
    }
}

/// Import a changegroup: the changeset chunks are buffered, every manifest
/// chunk is imported at once, each file group is imported with the
/// consistency heuristic tracking roots and heads, and finally each buffered
/// changeset is reconstructed against its delta reference and stored. A hunk
/// outside its reference is fatal; a changeset whose parents have no native
/// counterpart is skipped; an ambiguous graft is fatal.
pub fn store_changegroup<S: Store>(
    store: &mut S,
    heads: &mut ChangesetHeads,
    files_tracker: &mut FileTracker,
    has_metadata: bool,
    changesets: &Vec<RevChunk>,
    manifests: &Vec<RevChunk>,
    files: &Vec<Vec<RevChunk>>,
) -> (r: Result<(), ImportError>)
    requires
        old(heads).wf(),
    ensures
        final(heads).wf(),
        // nothing to store cannot fail
        changesets@.len() == 0 ==> r is Ok,
        // the head tracker only gains nodes, each the target of some chunk
        old(heads).dag.nodes@.len() <= final(heads).dag.nodes@.len(),
        forall|i: int| 0 <= i < old(heads).dag.nodes@.len()
            ==> (#[trigger] final(heads).dag.nodes@[i]).node == old(heads).dag.nodes@[i].node,
        forall|i: int| old(heads).dag.nodes@.len() <= i < final(heads).dag.nodes@.len()
            ==> exists|j: int| 0 <= j < changesets@.len()
            && (#[trigger] final(heads).dag.nodes@[i]).node == changesets@[j].node,
        // a first chunk diffed against nothing whose hunks are malformed is
        // fatal, named after its target, with no outside call in the way
        (changesets@.len() > 0 && changesets@[0].delta_node@ == spec_null_oid() && spec_apply(
            Seq::empty(),
            hunks_view(changesets@[0].hunks@),
        ) is None) ==> (r matches Err(e) && e matches ImportError::MalformedChunk(id) && id@
            == changesets@[0].node@),
{
    let mut i: usize = 0;
    while i < manifests.len()
        invariant
            0 <= i <= manifests@.len(),
        decreases manifests@.len() - i,
    {
        store.store_manifest_chunk(&manifests[i]);
        i = i + 1;
    }
    let mut g: usize = 0;
    while g < files.len()
        invariant
            0 <= g <= files@.len(),
        decreases files@.len() - g,
    {
        let group = &files[g];
        let mut k: usize = 0;
        while k < group.len()
            invariant
                0 <= k <= group@.len(),
            decreases group@.len() - k,
        {
            let chunk = &group[k];
            files_tracker.track(has_metadata, chunk);
            store.store_file_chunk(chunk);
            k = k + 1;
        }
        g = g + 1;
    }
    // the changesets, in original order, each against its resolved reference
    let mut previous_id = HgChangesetId::null();
    let mut previous_bytes: Vec<u8> = Vec::new();
    let null_id = HgChangesetId::null();
    let mut c: usize = 0;
    proof {
        assert(previous_id@ == spec_null_oid());
    }
    while c < changesets.len()
        invariant
            0 <= c <= changesets@.len(),
            heads.wf(),
            old(heads).dag.nodes@.len() <= heads.dag.nodes@.len(),
            forall|i: int| 0 <= i < old(heads).dag.nodes@.len() ==> (#[trigger] heads.dag.nodes@[
            i]).node == old(heads).dag.nodes@[i].node,
            forall|i: int| old(heads).dag.nodes@.len() <= i < heads.dag.nodes@.len()
                ==> exists|j: int| 0 <= j < changesets@.len() && (#[trigger] heads.dag.nodes@[
            i]).node == changesets@[j].node,
            c == 0 ==> previous_id@ == spec_null_oid() && previous_bytes@ == Seq::<u8>::empty(),
            c > 0 ==> !(changesets@.len() > 0 && changesets@[0].delta_node@ == spec_null_oid()
                && spec_apply(Seq::empty(), hunks_view(changesets@[0].hunks@)) is None),
        decreases changesets@.len() - c,
    {
        let chunk = &changesets[c];
        let mut parents: Vec<HgChangesetId> = Vec::new();
        if !(chunk.parent1 == null_id) {
            parents.push(chunk.parent1);
        }
        if !(chunk.parent2 == null_id) {
            parents.push(chunk.parent2);
        }
        proof {
            assert(parents@.len() <= 2);
        }
        let reference: Vec<u8> = if chunk.delta_node == previous_id {
            vstd::slice::slice_to_vec(previous_bytes.as_slice())
        } else if chunk.delta_node == null_id {
            Vec::new()
        } else {
            let git_delta = match store.hg2git_changeset(&chunk.delta_node) {
                Some(g) => g,
                None => {
                    return Err(ImportError::MissingReference(chunk.delta_node));
                },
            };
            match RawHgChangeset::read(store, &git_delta) {
                Some(raw) => raw.0,
                None => {
                    return Err(ImportError::MissingReference(chunk.delta_node));
                },
            }
        };
        let raw_bytes = match apply_chunk(reference.as_slice(), chunk) {
            Ok(v) => v,
            Err(e) => {
                return Err(e);
            },
        };
        proof {
            if c == 0 && chunk.delta_node@ == spec_null_oid() {
                assert(reference@ =~= Seq::<u8>::empty());
            }
        }
        let raw_changeset = RawHgChangeset(raw_bytes);
        // a changeset already recorded would violate the tracker; such a
        // bundle is malformed
        let already = {
            proof {
                crate::heads::lemma_heads_dag_wf(heads);
            }
            let found = heads.dag.get(&chunk.node);
            match found {
                Some(_) => true,
                None => false,
            }
        };
        if already {
            return Err(ImportError::MalformedChunk(chunk.node));
        }
        if heads.dag.nodes.len() >= 0xFFFF_FFFEusize {
            return Err(ImportError::MalformedChunk(chunk.node));
        }
        let ghost pre_nodes = heads.dag.nodes@;
        match crate::store::store_changeset(store, heads, &chunk.node, &parents, &raw_changeset) {
            Ok(_) => {
                proof {
                    let post = heads.dag.nodes@;
                    assert(crate::dag::same_shape(pre_nodes.push(post.last()), post));
                    assert forall|i: int|
                        old(heads).dag.nodes@.len() <= i < post.len() implies exists|j: int|
                        0 <= j < changesets@.len() && (#[trigger] post[i]).node == changesets@[
                    j].node by {
                        if i < post.len() - 1 {
                            assert((pre_nodes.push(post.last()))[i] == pre_nodes[i]);
                            assert(post[i].node == pre_nodes[i].node);
                            assert(exists|j: int| 0 <= j < changesets@.len() && (
                            #[trigger] pre_nodes[i]).node == changesets@[j].node);
                        } else {
                            assert(post[i].node == chunk.node);
                            assert(changesets@[c as int].node == chunk.node);
                        }
                    }
                    assert forall|i: int| 0 <= i < old(heads).dag.nodes@.len() implies (
                    #[trigger] post[i]).node == old(heads).dag.nodes@[i].node by {
                        assert((pre_nodes.push(post.last()))[i] == pre_nodes[i]);
                        assert(post[i].node == pre_nodes[i].node);
                    }
                }
            },
            Err(GraftError::NoGraft) => {
                // recoverable: the changeset is skipped; later changesets may
                // not depend on it
            },
            Err(GraftError::Ambiguous(candidates)) => {
                return Err(ImportError::AmbiguousGraft(chunk.node, candidates));
            },
        }
        previous_id = chunk.node;
        previous_bytes = raw_changeset.0;
        c = c + 1;
    }
    Ok(())
}

} // verus!
