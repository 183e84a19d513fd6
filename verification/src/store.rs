//! The object-store boundary and the changeset storage flow: everything the
//! bridge asks of the native content-addressed store stands behind one
//! interface, and the decisions around those calls are verified for every
//! answer the store may give.

use vstd::prelude::*;

use crate::bytes::{append_bytes, spec_hex, spec_split, views};
use crate::changeset::{Commit, HgChangeset, RawHgChangeset};
use crate::extra::spec_extra_buf_wf;
use crate::heads::ChangesetHeads;
use crate::metadata::{GitChangesetMetadata, RawGitChangesetMetadata};
use crate::oid::{
    BlobId, CommitId, GitChangesetId, GitChangesetMetadataId, GitFileId, GitFileMetadataId,
    GitManifestId, HgChangesetId, HgFileId, HgManifestId, TreeId,
};

verus! {

/// The graft decision's failures: no commit to adopt where one was required,
/// or several plausible candidates.
#[derive(Debug)]
pub enum GraftError {
    NoGraft,
    Ambiguous(Vec<CommitId>),
}

/// The native object store and its auxiliary note mappings, as the bridge
/// consumes them. Every operation is an outside service: nothing is promised
/// of its results, and the callers are verified for every possible answer.
pub trait Store {
    /// The note mapping from a foreign changeset id to its native commit.
    fn hg2git_changeset(&self, id: &HgChangesetId) -> Option<GitChangesetId>;

    /// The note mapping from a foreign manifest id to its native commit.
    fn hg2git_manifest(&self, id: &HgManifestId) -> Option<GitManifestId>;

    /// The note mapping from a native commit to its metadata blob.
    fn git2hg(&self, id: &GitChangesetId) -> Option<BlobId>;

    /// Raw bytes of a blob.
    fn read_blob(&self, id: &BlobId) -> Option<Vec<u8>>;

    /// A commit, parsed by the store.
    fn read_commit(&self, id: &CommitId) -> Option<Commit>;

    /// Store a blob, returning its id.
    fn store_blob(&mut self, data: &[u8]) -> BlobId;

    /// Store a commit object from its raw bytes, returning its id.
    fn store_commit(&mut self, data: &[u8]) -> CommitId;

    /// Store a tree object from its raw bytes, returning its id.
    fn store_tree(&mut self, data: &[u8]) -> TreeId;

    /// Derive the tree for a changeset from a manifest's tree and the first
    /// parent's tree.
    fn create_tree_from(&mut self, manifest_tree: &TreeId, reference: Option<&TreeId>) -> TreeId;

    /// The well-known empty tree.
    fn empty_tree(&mut self) -> TreeId;

    /// Regenerate a manifest's foreign bytes.
    fn generate_manifest(&self, id: &GitManifestId) -> Option<Vec<u8>>;

    /// Record the changeset note: foreign changeset to native commit.
    fn set_changeset_note(&mut self, cs: &HgChangesetId, commit: &CommitId);

    /// Record the metadata note: foreign changeset to metadata blob.
    fn set_metadata_note(&mut self, cs: &HgChangesetId, blob: &BlobId);

    /// Record that one commit replaces another.
    fn set_replace(&mut self, replaced: &CommitId, replace_with: &CommitId);

    /// The graft decision: a pre-existing commit to adopt, none, or an
    /// ambiguity.
    fn graft(
        &mut self,
        cs: &HgChangesetId,
        raw: &[u8],
        tree: &TreeId,
        parents: &Vec<GitChangesetId>,
    ) -> Result<Option<CommitId>, GraftError>;

    /// Whether grafting is in force.
    fn grafting(&self) -> bool;

    /// Import one manifest chunk.
    fn store_manifest_chunk(&mut self, chunk: &crate::import::RevChunk);

    /// Import one file chunk.
    fn store_file_chunk(&mut self, chunk: &crate::import::RevChunk);

    /// Verify one stored file revision against its recorded parents.
    fn check_file(&self, node: &HgFileId, parent1: &HgFileId, parent2: &HgFileId) -> bool;

    /// Update a ref through the store's transactional primitive.
    fn update_ref(&mut self, name: &[u8], target: &CommitId);

    /// The commit the metadata ref points at, if any.
    fn metadata_commit(&self) -> Option<CommitId>;

    /// The blob holding the tag file of a head, if any.
    fn hgtags_blob(&self, head: &GitChangesetId) -> Option<BlobId>;
}

/// Whether a serialized extra dictionary is well shaped, as `spec_extra_buf_wf`
/// has it: empty, or every NUL-separated part carries a colon.
pub fn extra_buf_ok(buf: &[u8]) -> (r: bool)
    ensures
        r == spec_extra_buf_wf(buf@),
{
    if buf.len() == 0 {
        return true;
    }
    let parts = crate::bytes::split_byte(buf, 0);
    let mut i: usize = 0;
    while i < parts.len()
        invariant
            0 <= i <= parts@.len(),
            buf@.len() > 0,
            views(parts@) == spec_split(buf@, 0),
            forall|j: int| 0 <= j < i ==> crate::bytes::spec_contains_byte(
                #[trigger] spec_split(buf@, 0)[j],
                0x3A,
            ),
        decreases parts@.len() - i,
    {
        proof {
            assert(spec_split(buf@, 0)[i as int] == parts@[i as int]@);
        }
        if !crate::bytes::contains_byte(parts[i].as_slice(), 0x3A) {
            proof {
                crate::bytes::lemma_find_byte_props(parts@[i as int]@, 0x3A, 0);
            }
            return false;
        }
        i = i + 1;
    }
    true
}

impl RawGitChangesetMetadata {
    /// Read the metadata blob recorded for a native changeset commit.
    pub fn read<S: Store>(store: &S, changeset_id: &GitChangesetId) -> Option<
        RawGitChangesetMetadata,
    > {
        let note = store.git2hg(changeset_id)?;
        let bytes = store.read_blob(&note)?;
        Some(RawGitChangesetMetadata::from_bytes(bytes))
    }
}

impl GitChangesetId {
    /// The foreign changeset this native commit stands for, read back from
    /// its metadata record.
    pub fn to_hg<S: Store>(&self, store: &S) -> Option<HgChangesetId> {
        let metadata = RawGitChangesetMetadata::read(store, self)?;
        let parsed = metadata.parse()?;
        Some(parsed.changeset_id)
    }
}

/// The raw bytes of a foreign manifest.
#[derive(Debug)]
pub struct RawHgManifest(pub Vec<u8>);

impl RawHgManifest {
    /// Regenerate a manifest's bytes from the store.
    pub fn read<S: Store>(store: &S, oid: &GitManifestId) -> Option<RawHgManifest> {
        match store.generate_manifest(oid) {
            Some(bytes) => Some(RawHgManifest(bytes)),
            None => None,
        }
    }
}

/// The raw bytes of one revision of a foreign file.
#[derive(Debug)]
pub struct RawHgFile(pub Vec<u8>);

impl RawHgFile {
    /// The file bytes a content blob and an optional metadata blob assemble
    /// to: the metadata framed by `\x01\n` lines, then the contents.
    pub open spec fn spec_assemble(metadata: Option<Seq<u8>>, content: Seq<u8>) -> Seq<u8> {
        match metadata {
            Some(m) => seq![0x01u8, 0x0Au8] + m + seq![0x01u8, 0x0Au8] + content,
            None => content,
        }
    }

    /// Assemble the foreign file bytes from their parts.
    pub fn assemble(metadata: Option<&Vec<u8>>, content: &Vec<u8>) -> (r: Vec<u8>)
        ensures
            r@ == Self::spec_assemble(
                match metadata {
                    Some(m) => Some(m@),
                    None => None,
                },
                content@,
            ),
    {
        let mut out: Vec<u8> = Vec::new();
        match metadata {
            Some(m) => {
                out.push(0x01);
                out.push(0x0A);
                append_bytes(&mut out, m.as_slice());
                out.push(0x01);
                out.push(0x0A);
                append_bytes(&mut out, content.as_slice());
                proof {
                    assert(out@ =~= seq![0x01u8, 0x0Au8] + m@ + seq![0x01u8, 0x0Au8] + content@);
                }
            },
            None => {
                append_bytes(&mut out, content.as_slice());
                proof {
                    assert(out@ =~= content@);
                }
            },
        }
        out
    }

    /// Read one revision of a file: its content blob, framed by its metadata
    /// blob when one is recorded.
    pub fn read<S: Store>(
        store: &S,
        oid: &GitFileId,
        metadata: Option<&GitFileMetadataId>,
    ) -> Option<RawHgFile> {
        let meta_bytes: Option<Vec<u8>> = match metadata {
            Some(mid) => match store.read_blob(&mid.id) {
                Some(b) => Some(b),
                None => {
                    return None;
                },
            },
            None => None,
        };
        let content = store.read_blob(&oid.id)?;
        Some(RawHgFile(Self::assemble(meta_bytes.as_ref(), &content)))
    }
}

impl RawHgChangeset {
    /// Regenerate a changeset's foreign bytes from its native commit and
    /// metadata record. The parents' foreign ids are looked up through the
    /// note mapping only when the id collision adjustment consults them: a
    /// changeset whose reconstruction does not end in a NUL byte (or whose
    /// recorded id is null) reconstructs even with an unmapped parent.
    pub fn read<S: Store>(store: &S, oid: &GitChangesetId) -> Option<RawHgChangeset> {
        let commit = store.read_commit(&oid.id)?;
        let raw_metadata = RawGitChangesetMetadata::read(store, oid)?;
        let metadata = raw_metadata.parse()?;
        let ok = match &metadata.extra {
            Some(e) => extra_buf_ok(e.as_slice()),
            None => true,
        };
        if !ok {
            return None;
        }
        let patched = RawHgChangeset::reconstruct_patched(&commit, &metadata)?;
        let null_id = HgChangesetId::null();
        let needs_adjustment = !(metadata.changeset_id == null_id) && patched.len() > 0
            && patched[patched.len() - 1] == 0;
        if !needs_adjustment {
            return Some(RawHgChangeset(patched));
        }
        if commit.parents.len() > 2 {
            return None;
        }
        let mut parents: Vec<HgChangesetId> = Vec::new();
        let mut i: usize = 0;
        let pn = commit.parents.len();
        while i < pn
            invariant
                0 <= i <= pn,
                pn == commit.parents@.len(),
                pn <= 2,
                parents@.len() == i,
            decreases pn - i,
        {
            let p = GitChangesetId::from_commit(commit.parents[i]);
            match p.to_hg(store) {
                Some(hg) => {
                    parents.push(hg);
                },
                None => {
                    return None;
                },
            }
            i = i + 1;
        }
        RawHgChangeset::from_metadata(&commit, &metadata, &parents)
    }
}

/// The raw commit text a changeset reconstructs to on the native side:
/// `tree`, `parent` lines, the derived author and committer lines, a blank
/// line, and the foreign body verbatim.
pub open spec fn spec_raw_commit(
    cs_author: Seq<u8>,
    cs_timestamp: Seq<u8>,
    cs_utcoffset: Seq<u8>,
    committer_extra: Option<Seq<u8>>,
    body: Seq<u8>,
    tree: Seq<u8>,
    parents: Seq<Seq<u8>>,
) -> Seq<u8> {
    let author_line = crate::authorship::spec_git_author_line(cs_author, cs_timestamp, cs_utcoffset);
    let committer_line = match committer_extra {
        Some(cm) => if cm.len() > 0 && cm.last() == 0x3E {
            crate::authorship::spec_git_author_line(cm, cs_timestamp, cs_utcoffset)
        } else {
            crate::authorship::spec_committer_git_line(cm)
        },
        None => author_line,
    };
    kw_tree() + seq![0x20u8] + spec_hex(tree) + seq![0x0Au8] + spec_parent_lines(parents)
        + kw_author_word() + seq![0x20u8] + author_line + seq![0x0Au8] + kw_committer_word()
        + seq![0x20u8] + committer_line + seq![0x0Au8, 0x0Au8] + body
}

/// One `parent <hex>` line per parent.
pub open spec fn spec_parent_lines(parents: Seq<Seq<u8>>) -> Seq<u8>
    decreases parents.len(),
{
    if parents.len() == 0 {
        Seq::empty()
    } else {
        kw_parent() + seq![0x20u8] + spec_hex(parents[0]) + seq![0x0Au8] + spec_parent_lines(
            parents.drop_first(),
        )
    }
}

/// The bytes of the word `tree`.
pub open spec fn kw_tree() -> Seq<u8> {
    seq![0x74u8, 0x72u8, 0x65u8, 0x65u8]
}

/// The bytes of the word `parent`.
pub open spec fn kw_parent() -> Seq<u8> {
    seq![0x70u8, 0x61u8, 0x72u8, 0x65u8, 0x6Eu8, 0x74u8]
}

/// The bytes of the word `author`.
pub open spec fn kw_author_word() -> Seq<u8> {
    seq![0x61u8, 0x75u8, 0x74u8, 0x68u8, 0x6Fu8, 0x72u8]
}

/// The bytes of the word `committer`.
pub open spec fn kw_committer_word() -> Seq<u8> {
    seq![0x63u8, 0x6Fu8, 0x6Du8, 0x6Du8, 0x69u8, 0x74u8, 0x74u8, 0x65u8, 0x72u8]
}

/// Build the raw native commit text for a parsed foreign changeset.
#[verifier::rlimit(100)]
pub fn raw_commit_for_changeset(
    changeset: &HgChangeset,
    tree_id: &TreeId,
    parents: &Vec<GitChangesetId>,
) -> (r: Vec<u8>)
    requires
        match changeset.extra {
            Some(e) => spec_extra_buf_wf(e@),
            None => true,
        },
    ensures
        r@ == spec_raw_commit(
            changeset.author@,
            changeset.timestamp@,
            changeset.utcoffset@,
            crate::extra::spec_lookup(
                match changeset.extra {
                    Some(e) => crate::extra::spec_extra_from(e@),
                    None => Seq::empty(),
                },
                crate::changeset::kw_committer(),
            ),
            changeset.body@,
            tree_id@,
            parents@.map_values(|p: GitChangesetId| p@),
        ),
{
    let ghost pv = parents@.map_values(|p: GitChangesetId| p@);
    let mut out: Vec<u8> = Vec::new();
    out.push(0x74);
    out.push(0x72);
    out.push(0x65);
    out.push(0x65);
    out.push(0x20);
    let th = tree_id.to_hex();
    append_bytes(&mut out, th.as_slice());
    out.push(0x0A);
    proof {
        assert(out@ =~= kw_tree() + seq![0x20u8] + spec_hex(tree_id@) + seq![0x0Au8]);
    }
    let ghost head = out@;
    let mut i: usize = 0;
    proof {
        assert(pv.skip(0) =~= pv);
    }
    while i < parents.len()
        invariant
            0 <= i <= parents@.len(),
            pv == parents@.map_values(|p: GitChangesetId| p@),
            out@ + spec_parent_lines(pv.skip(i as int)) == head + spec_parent_lines(pv),
        decreases parents@.len() - i,
    {
        proof {
            assert(pv.skip(i as int)[0] == pv[i as int]);
            assert(pv[i as int] == parents@[i as int]@);
            assert(pv.skip(i as int).drop_first() =~= pv.skip(i + 1));
        }
        out.push(0x70);
        out.push(0x61);
        out.push(0x72);
        out.push(0x65);
        out.push(0x6E);
        out.push(0x74);
        out.push(0x20);
        let ph = parents[i].to_hex();
        append_bytes(&mut out, ph.as_slice());
        out.push(0x0A);
        i = i + 1;
    }
    proof {
        assert(pv.skip(parents@.len() as int) =~= Seq::<Seq<u8>>::empty());
        assert(out@ + Seq::<u8>::empty() =~= out@);
        assert(out@ =~= head + spec_parent_lines(pv));
    }
    let author_line = crate::authorship::git_author_line(
        changeset.author.as_slice(),
        changeset.timestamp.as_slice(),
        changeset.utcoffset.as_slice(),
    );
    let committer_key = crate::changeset::kw_committer_vec();
    let extra = changeset.extra();
    let committer_line: Vec<u8> = match &extra {
        Some(e) => match e.get(committer_key.as_slice()) {
            Some(cm) => {
                if cm.len() > 0 && cm[cm.len() - 1] == 0x3E {
                    proof {
                        assert(cm@.last() == cm@[cm@.len() - 1]);
                    }
                    crate::authorship::git_author_line(
                        cm.as_slice(),
                        changeset.timestamp.as_slice(),
                        changeset.utcoffset.as_slice(),
                    )
                } else {
                    crate::authorship::committer_git_line(cm.as_slice())
                }
            },
            None => vstd::slice::slice_to_vec(author_line.as_slice()),
        },
        None => vstd::slice::slice_to_vec(author_line.as_slice()),
    };
    out.push(0x61);
    out.push(0x75);
    out.push(0x74);
    out.push(0x68);
    out.push(0x6F);
    out.push(0x72);
    out.push(0x20);
    append_bytes(&mut out, author_line.as_slice());
    out.push(0x0A);
    out.push(0x63);
    out.push(0x6F);
    out.push(0x6D);
    out.push(0x6D);
    out.push(0x69);
    out.push(0x74);
    out.push(0x74);
    out.push(0x65);
    out.push(0x72);
    out.push(0x20);
    append_bytes(&mut out, committer_line.as_slice());
    out.push(0x0A);
    out.push(0x0A);
    append_bytes(&mut out, changeset.body.as_slice());
    proof {
        assert(out@ =~= spec_raw_commit(
            changeset.author@,
            changeset.timestamp@,
            changeset.utcoffset@,
            crate::extra::spec_lookup(
                match changeset.extra {
                    Some(e) => crate::extra::spec_extra_from(e@),
                    None => Seq::empty(),
                },
                crate::changeset::kw_committer(),
            ),
            changeset.body@,
            tree_id@,
            pv,
        ));
    }
    out
}

/// The key `branch` of the extra dictionary.
pub open spec fn kw_branch() -> Seq<u8> {
    seq![0x62u8, 0x72u8, 0x61u8, 0x6Eu8, 0x63u8, 0x68u8]
}

/// The branch name `default`.
pub open spec fn kw_default() -> Seq<u8> {
    seq![0x64u8, 0x65u8, 0x66u8, 0x61u8, 0x75u8, 0x6Cu8, 0x74u8]
}

/// The branch a changeset is registered under: its extra dictionary's
/// `branch` entry, or `default` when the changeset carries none.
pub open spec fn spec_changeset_branch(raw: Seq<u8>) -> Seq<u8> {
    match crate::changeset::spec_parse_changeset(raw) {
        Some(f) => match f.extra {
            Some(e) => match crate::extra::spec_lookup(
                crate::extra::spec_extra_from(e),
                kw_branch(),
            ) {
                Some(b) => b,
                None => kw_default(),
            },
            None => kw_default(),
        },
        None => kw_default(),
    }
}

/// Store one changeset: derive its tree, adopt a grafted commit or
/// synthesize a fresh one, store its metadata record, record the note
/// mappings and any replacement, and register the changeset under its branch
/// in the head tracker. `Err(GraftError::NoGraft)` when the changeset does
/// not parse, its extra dictionary is malformed, or a parent or manifest has
/// no native counterpart (the changeset is skipped); ambiguity is fatal. On
/// success the tracker gains exactly this changeset, under its extra
/// dictionary's branch (or `default`), linked to those of the given parents
/// it already tracks; on failure the tracker is untouched.
pub fn store_changeset<S: Store>(
    store: &mut S,
    heads: &mut ChangesetHeads,
    changeset_id: &HgChangesetId,
    parents: &Vec<HgChangesetId>,
    raw_changeset: &RawHgChangeset,
) -> (r: Result<(CommitId, Option<CommitId>), GraftError>)
    requires
        old(heads).wf(),
        parents@.len() <= 2,
        old(heads).dag.spec_find(*changeset_id) is None,
        old(heads).dag.nodes@.len() + 1 <= u32::MAX,
    ensures
        final(heads).wf(),
        crate::changeset::spec_parse_changeset(raw_changeset@) is None ==> r is Err,
        (crate::changeset::spec_parse_changeset(raw_changeset@) matches Some(f) && f.extra
            matches Some(e) && !spec_extra_buf_wf(e)) ==> r is Err,
        r is Ok ==> final(heads).dag.nodes@.len() == old(heads).dag.nodes@.len() + 1
            && final(heads).dag.nodes@.last().node == *changeset_id && crate::dag::same_shape(
            old(heads).dag.nodes@.push(final(heads).dag.nodes@.last()),
            final(heads).dag.nodes@,
        ) && final(heads).dag.nodes@.last().data.branch@ == spec_changeset_branch(
            raw_changeset@,
        ) && ({
            let found = crate::dag::spec_found_parents(old(heads).dag.nodes@, parents@);
            &&& final(heads).dag.nodes@.last().parent1 == (if found.len() >= 1 {
                Some(found[0])
            } else {
                None::<crate::dag::DagNodeId>
            })
            &&& final(heads).dag.nodes@.last().parent2 == (if found.len() >= 2 {
                Some(found[1])
            } else {
                None::<crate::dag::DagNodeId>
            })
        }),
        r is Err ==> final(heads).dag.nodes@ == old(heads).dag.nodes@ && final(heads).heads@
            == old(heads).heads@,
{
    let changeset = match raw_changeset.parse() {
        Some(cs) => cs,
        None => {
            return Err(GraftError::NoGraft);
        },
    };
    let extra_ok = match &changeset.extra {
        Some(e) => extra_buf_ok(e.as_slice()),
        None => true,
    };
    if !extra_ok {
        return Err(GraftError::NoGraft);
    }
    // resolve the parents to the native side; a missing one skips the
    // changeset
    let mut git_parents: Vec<GitChangesetId> = Vec::new();
    let mut i: usize = 0;
    while i < parents.len()
        invariant
            0 <= i <= parents@.len(),
            heads.wf(),
            heads.dag.nodes@ == old(heads).dag.nodes@,
            heads.heads@ == old(heads).heads@,
        decreases parents@.len() - i,
    {
        match store.hg2git_changeset(&parents[i]) {
            Some(g) => {
                git_parents.push(g);
            },
            None => {
                return Err(GraftError::NoGraft);
            },
        }
        i = i + 1;
    }
    // the tree: the manifest's, or the empty tree for the null manifest
    let null_manifest = HgManifestId::null();
    let manifest_tree: TreeId = if changeset.manifest == null_manifest {
        store.empty_tree()
    } else {
        let git_manifest = match store.hg2git_manifest(&changeset.manifest) {
            Some(g) => g,
            None => {
                return Err(GraftError::NoGraft);
            },
        };
        let manifest_commit = match store.read_commit(&git_manifest.id) {
            Some(c) => c,
            None => {
                return Err(GraftError::NoGraft);
            },
        };
        manifest_commit.tree
    };
    let ref_tree: Option<TreeId> = if git_parents.len() >= 1 {
        match store.read_commit(&git_parents[0].id) {
            Some(c) => Some(c.tree),
            None => {
                return Err(GraftError::NoGraft);
            },
        }
    } else {
        None
    };
    let tree_id = store.create_tree_from(&manifest_tree, ref_tree.as_ref());
    // the graft decision
    let grafted_commit: Option<CommitId> = match store.graft(
        changeset_id,
        raw_changeset.0.as_slice(),
        &tree_id,
        &git_parents,
    ) {
        Ok(c) => c,
        Err(GraftError::NoGraft) => None,
        Err(GraftError::Ambiguous(candidates)) => {
            return Err(GraftError::Ambiguous(candidates));
        },
    };
    let mut commit_id: Option<CommitId> = None;
    let mut metadata_id: Option<GitChangesetMetadataId> = None;
    let mut transition = false;
    match grafted_commit {
        Some(cid) => {
            let commit = match store.read_commit(&cid) {
                Some(c) => c,
                None => {
                    return Err(GraftError::NoGraft);
                },
            };
            let hg_parents = collect_hg_parents(store, &commit);
            let hg_parents = match hg_parents {
                Some(p) => p,
                None => {
                    return Err(GraftError::NoGraft);
                },
            };
            let metadata = match GitChangesetMetadata::generate(
                &commit,
                changeset_id,
                raw_changeset,
                &hg_parents,
            ) {
                Some(m) => m,
                None => {
                    return Err(GraftError::NoGraft);
                },
            };
            let has_patch = match &metadata.patch {
                Some(_) => true,
                None => false,
            };
            if !store.grafting() && has_patch {
                commit_id = Some(cid);
                transition = true;
            } else {
                let serialized = metadata.serialize();
                let metadata_oid = store.store_blob(serialized.as_slice());
                commit_id = Some(cid);
                metadata_id = Some(GitChangesetMetadataId::from_blob(metadata_oid));
            }
        },
        None => {
        },
    }
    let replace: Option<CommitId>;
    let final_commit: CommitId;
    let final_metadata: GitChangesetMetadataId;
    if commit_id.is_none() || transition {
        replace = commit_id;
        let commit_bytes = raw_commit_for_changeset(&changeset, &tree_id, &git_parents);
        let new_commit = store.store_commit(commit_bytes.as_slice());
        let commit = match store.read_commit(&new_commit) {
            Some(c) => c,
            None => {
                return Err(GraftError::NoGraft);
            },
        };
        let hg_parents = match collect_hg_parents(store, &commit) {
            Some(p) => p,
            None => {
                return Err(GraftError::NoGraft);
            },
        };
        let metadata = match GitChangesetMetadata::generate(
            &commit,
            changeset_id,
            raw_changeset,
            &hg_parents,
        ) {
            Some(m) => m,
            None => {
                return Err(GraftError::NoGraft);
            },
        };
        let serialized = metadata.serialize();
        let metadata_oid = store.store_blob(serialized.as_slice());
        final_commit = new_commit;
        final_metadata = GitChangesetMetadataId::from_blob(metadata_oid);
    } else {
        replace = None;
        final_commit = match commit_id {
            Some(c) => c,
            None => {
                return Err(GraftError::NoGraft);
            },
        };
        final_metadata = match metadata_id {
            Some(m) => m,
            None => {
                return Err(GraftError::NoGraft);
            },
        };
    }
    match &replace {
        Some(replaced) => {
            store.set_replace(replaced, &final_commit);
        },
        None => {
        },
    }
    store.set_changeset_note(changeset_id, &final_commit);
    store.set_metadata_note(changeset_id, &final_metadata.id);
    // register the changeset under its branch
    let branch_kw = kw_branch_vec();
    let extra = changeset.extra();
    let branch: Vec<u8> = match &extra {
        Some(e) => match e.get(branch_kw.as_slice()) {
            Some(b) => vstd::slice::slice_to_vec(b.as_slice()),
            None => kw_default_vec(),
        },
        None => kw_default_vec(),
    };
    proof {
        assert(branch@ == spec_changeset_branch(raw_changeset@));
    }
    let mut parent_refs: Vec<&HgChangesetId> = Vec::new();
    let mut j: usize = 0;
    proof {
        assert(parent_refs@.map_values(|p: &HgChangesetId| *p) =~= parents@.take(0));
    }
    while j < parents.len()
        invariant
            0 <= j <= parents@.len(),
            parent_refs@.len() == j,
            heads.wf(),
            heads.dag.nodes@ == old(heads).dag.nodes@,
            heads.heads@ == old(heads).heads@,
            parent_refs@.map_values(|p: &HgChangesetId| *p) == parents@.take(j as int),
        decreases parents@.len() - j,
    {
        let ghost pv = parent_refs@.map_values(|p: &HgChangesetId| *p);
        parent_refs.push(&parents[j]);
        proof {
            assert(parent_refs@.map_values(|p: &HgChangesetId| *p) =~= pv.push(
                parents@[j as int],
            ));
            assert(pv.push(parents@[j as int]) =~= parents@.take(j + 1));
        }
        j = j + 1;
    }
    proof {
        assert(parents@.take(parents@.len() as int) =~= parents@);
    }
    heads.add(changeset_id, parent_refs.as_slice(), branch.as_slice());
    Ok((final_commit, replace))
}

/// Normalize the file list a fresh changeset's metadata record carries: the
/// record holds the list exactly when it is nonempty.
pub fn normalize_files(files: Option<Vec<u8>>) -> (r: Option<Vec<u8>>)
    ensures
        match files {
            Some(f) => if f@.len() == 0 {
                r is None
            } else {
                r matches Some(g) && g@ == f@
            },
            None => r is None,
        },
{
    match files {
        Some(f) => if f.len() == 0 {
            None
        } else {
            Some(f)
        },
        None => None,
    }
}

/// Resolve a commit's parents to their foreign changesets.
fn collect_hg_parents<S: Store>(store: &S, commit: &Commit) -> (r: Option<Vec<HgChangesetId>>)
    ensures
        match r {
            Some(ps) => ps@.len() <= 2,
            None => true,
        },
{
    if commit.parents.len() > 2 {
        return None;
    }
    let mut out: Vec<HgChangesetId> = Vec::new();
    let mut i: usize = 0;
    let n = commit.parents.len();
    while i < n
        invariant
            0 <= i <= n,
            n == commit.parents@.len(),
            n <= 2,
            out@.len() == i,
        decreases n - i,
    {
        let p = GitChangesetId::from_commit(commit.parents[i]);
        match p.to_hg(store) {
            Some(hg) => {
                out.push(hg);
            },
            None => {
                return None;
            },
        }
        i = i + 1;
    }
    Some(out)
}

/// The key `branch`.
fn kw_branch_vec() -> (r: Vec<u8>)
    ensures
        r@ == seq![0x62u8, 0x72u8, 0x61u8, 0x6Eu8, 0x63u8, 0x68u8],
{
    let mut v: Vec<u8> = Vec::new();
    v.push(0x62);
    v.push(0x72);
    v.push(0x61);
    v.push(0x6E);
    v.push(0x63);
    v.push(0x68);
    proof {
        assert(v@ =~= seq![0x62u8, 0x72u8, 0x61u8, 0x6Eu8, 0x63u8, 0x68u8]);
    }
    v
}

/// The branch name `default`.
fn kw_default_vec() -> (r: Vec<u8>)
    ensures
        r@ == seq![0x64u8, 0x65u8, 0x66u8, 0x61u8, 0x75u8, 0x6Cu8, 0x74u8],
{
    let mut v: Vec<u8> = Vec::new();
    v.push(0x64);
    v.push(0x65);
    v.push(0x66);
    v.push(0x61);
    v.push(0x75);
    v.push(0x6C);
    v.push(0x74);
    proof {
        assert(v@ =~= seq![0x64u8, 0x65u8, 0x66u8, 0x61u8, 0x75u8, 0x6Cu8, 0x74u8]);
    }
    v
}

/// Create a fresh foreign changeset for a native commit that has no foreign
/// counterpart yet: derive the changeset bytes from the commit and the given
/// manifest and file list, hash them over the commit's foreign parents to
/// obtain the new changeset id, store the metadata record, record the note
/// mappings, and register the changeset under its first parent's branch.
/// `None` when the store cannot supply the commit or its parents' records,
/// or when the changeset is already registered.
pub fn create_changeset<S: Store>(
    store: &mut S,
    heads: &mut ChangesetHeads,
    commit_id: &CommitId,
    manifest_id: &HgManifestId,
    files: Option<Vec<u8>>,
) -> (r: Option<(HgChangesetId, GitChangesetMetadataId)>)
    requires
        old(heads).wf(),
    ensures
        final(heads).wf(),
        r matches Some((id, _)) ==> final(heads).dag.nodes@.len() == old(
            heads,
        ).dag.nodes@.len() + 1 && final(heads).dag.nodes@.last().node == id && old(
            heads,
        ).dag.spec_find(id) is None,
{
    let commit = match store.read_commit(commit_id) {
        Some(c) => c,
        None => {
            return None;
        },
    };
    let files = normalize_files(files);
    // the branch comes from the first parent's recorded extra dictionary
    let branch_kw = kw_branch_vec();
    let mut branch: Option<Vec<u8>> = None;
    if commit.parents.len() >= 1 {
        let parent = GitChangesetId::from_commit(commit.parents[0]);
        let parent_metadata = match RawGitChangesetMetadata::read(store, &parent) {
            Some(m) => m,
            None => {
                return None;
            },
        };
        let parsed = match parent_metadata.parse() {
            Some(p) => p,
            None => {
                return None;
            },
        };
        let extra_ok = match &parsed.extra {
            Some(e) => extra_buf_ok(e.as_slice()),
            None => true,
        };
        if !extra_ok {
            return None;
        }
        match parsed.extra() {
            Some(e) => match e.get(branch_kw.as_slice()) {
                Some(b) => {
                    branch = Some(vstd::slice::slice_to_vec(b.as_slice()));
                },
                None => {
                },
            },
            None => {
            },
        }
    }
    let extra: Option<Vec<u8>> = match &branch {
        Some(b) => {
            let mut e = crate::extra::ChangesetExtra::new();
            e.set(branch_kw.as_slice(), b.as_slice());
            let mut dumped: Vec<u8> = Vec::new();
            e.dump_into(&mut dumped);
            Some(dumped)
        },
        None => None,
    };
    let extra_ok = match &extra {
        Some(e) => extra_buf_ok(e.as_slice()),
        None => true,
    };
    if !extra_ok {
        return None;
    }
    let mut metadata = GitChangesetMetadata {
        changeset_id: HgChangesetId::null(),
        manifest_id: *manifest_id,
        author: None,
        extra,
        files,
        patch: None,
    };
    let parents = match collect_hg_parents(store, &commit) {
        Some(p) => p,
        None => {
            return None;
        },
    };
    let changeset = match RawHgChangeset::from_metadata(&commit, &metadata, &parents) {
        Some(c) => c,
        None => {
            return None;
        },
    };
    let node = crate::changeset::hg_node_hash(&parents, changeset.0.as_slice());
    metadata.changeset_id = node;
    let serialized = metadata.serialize();
    let blob = store.store_blob(serialized.as_slice());
    store.set_changeset_note(&node, commit_id);
    store.set_metadata_note(&node, &blob);
    // register under the branch
    let present = {
        proof {
            crate::heads::lemma_heads_dag_wf(heads);
        }
        let found = heads.dag.get(&node);
        match found {
            Some(_) => true,
            None => false,
        }
    };
    if present {
        return None;
    }
    if heads.dag.nodes.len() >= 0xFFFF_FFFEusize {
        return None;
    }
    let branch_name: Vec<u8> = match branch {
        Some(b) => b,
        None => kw_default_vec(),
    };
    let mut parent_refs: Vec<&HgChangesetId> = Vec::new();
    let mut j: usize = 0;
    while j < parents.len()
        invariant
            0 <= j <= parents@.len(),
            parent_refs@.len() == j,
            heads.wf(),
            heads.dag.nodes@ == old(heads).dag.nodes@,
            heads.heads@ == old(heads).heads@,
            heads.dag.spec_find(node) is None,
            heads.dag.nodes@.len() + 1 <= u32::MAX,
            parents@.len() <= 2,
        decreases parents@.len() - j,
    {
        parent_refs.push(&parents[j]);
        j = j + 1;
    }
    heads.add(&node, parent_refs.as_slice(), branch_name.as_slice());
    Some((node, GitChangesetMetadataId::from_blob(blob)))
}

/// One `<hex-id> <branch>` head line, parsed: the id's raw bytes and the
/// branch label. Nothing without a space or with a malformed id.
pub open spec fn spec_head_line(line: Seq<u8>) -> Option<(Seq<u8>, Seq<u8>)> {
    match crate::bytes::spec_find_byte(line, 0x20, 0) {
        Some(sp) => match crate::oid::spec_parse_oid(line.take(sp)) {
            Some(id) => Some((id, line.skip(sp + 1))),
            None => None,
        },
        None => None,
    }
}

/// Every head line of a metadata commit body, parsed in order; nothing when
/// any line is malformed.
pub open spec fn spec_head_list(lines: Seq<Seq<u8>>) -> Option<Seq<(Seq<u8>, Seq<u8>)>>
    decreases lines.len(),
{
    if lines.len() == 0 {
        Some(Seq::empty())
    } else {
        match (spec_head_line(lines[0]), spec_head_list(lines.drop_first())) {
            (Some(h), Some(rest)) => Some(seq![h] + rest),
            _ => None,
        }
    }
}

/// Parsing a line list splits at any position.
proof fn lemma_head_list_split(lines: Seq<Seq<u8>>, i: int)
    requires
        0 <= i <= lines.len(),
    ensures
        spec_head_list(lines) == (match (
            spec_head_list(lines.take(i)),
            spec_head_list(lines.skip(i)),
        ) {
            (Some(a), Some(b)) => Some(a + b),
            _ => None::<Seq<(Seq<u8>, Seq<u8>)>>,
        }),
    decreases i,
{
    if i == 0 {
        assert(lines.take(0) =~= Seq::<Seq<u8>>::empty());
        assert(lines.skip(0) =~= lines);
        match spec_head_list(lines) {
            Some(l) => {
                assert(Seq::<(Seq<u8>, Seq<u8>)>::empty() + l =~= l);
            },
            None => {
            },
        }
    } else {
        lemma_head_list_split(lines.drop_first(), i - 1);
        assert(lines.take(i)[0] == lines[0]);
        assert(lines.take(i).drop_first() =~= lines.drop_first().take(i - 1));
        assert(lines.skip(i) =~= lines.drop_first().skip(i - 1));
        match (spec_head_line(lines[0]), spec_head_list(lines.drop_first())) {
            (Some(h), Some(rest)) => {
                match (
                    spec_head_list(lines.drop_first().take(i - 1)),
                    spec_head_list(lines.drop_first().skip(i - 1)),
                ) {
                    (Some(a), Some(b)) => {
                        assert((seq![h] + a) + b =~= seq![h] + (a + b));
                    },
                    _ => {
                    },
                }
            },
            _ => {
            },
        }
    }
}

/// Parse a metadata commit body into its head records: the body's lines,
/// each `<hex-id> <branch>`.
pub fn parse_head_lines(body: &[u8]) -> (r: Option<Vec<(HgChangesetId, Vec<u8>)>>)
    ensures
        ({
            let lines = spec_split(body@, 0x0A);
            match r {
                Some(v) => spec_head_list(lines) matches Some(l) && v@.map_values(
                    |p: (HgChangesetId, Vec<u8>)| (p.0@, p.1@),
                ) == l,
                None => spec_head_list(lines) is None,
            }
        }),
{
    let ghost lines = spec_split(body@, 0x0A);
    let parts = crate::bytes::split_byte(body, 0x0A);
    let mut out: Vec<(HgChangesetId, Vec<u8>)> = Vec::new();
    let mut i: usize = 0;
    proof {
        assert(out@.map_values(|p: (HgChangesetId, Vec<u8>)| (p.0@, p.1@)) =~= Seq::<
            (Seq<u8>, Seq<u8>),
        >::empty());
        assert(lines.take(0) =~= Seq::<Seq<u8>>::empty());
    }
    while i < parts.len()
        invariant
            0 <= i <= parts@.len(),
            lines == spec_split(body@, 0x0A),
            views(parts@) == lines,
            parts@.len() == lines.len(),
            spec_head_list(lines.take(i as int)) == Some(
                out@.map_values(|p: (HgChangesetId, Vec<u8>)| (p.0@, p.1@)),
            ),
        decreases parts@.len() - i,
    {
        proof {
            assert(lines[i as int] == parts@[i as int]@);
        }
        let line = &parts[i];
        let sp = match crate::bytes::find_byte(line.as_slice(), 0x20) {
            Some(sp) => sp,
            None => {
                proof {
                    assert(spec_head_line(lines[i as int]) is None);
                    assert(lines.skip(i as int)[0] == lines[i as int]);
                    assert(spec_head_list(lines.skip(i as int)) is None);
                    lemma_head_list_split(lines, i as int);
                }
                return None;
            },
        };
        proof {
            crate::bytes::lemma_find_byte_props(line@, 0x20, 0);
        }
        let n = line.len();
        let id_part = vstd::slice::slice_subrange(line.as_slice(), 0, sp);
        proof {
            assert(id_part@ =~= lines[i as int].take(sp as int));
        }
        let cs = match HgChangesetId::from_bytes(id_part) {
            Some(cs) => cs,
            None => {
                proof {
                    assert(spec_head_line(lines[i as int]) is None);
                    assert(lines.skip(i as int)[0] == lines[i as int]);
                    assert(spec_head_list(lines.skip(i as int)) is None);
                    lemma_head_list_split(lines, i as int);
                }
                return None;
            },
        };
        let branch = vstd::slice::slice_to_vec(vstd::slice::slice_subrange(
            line.as_slice(),
            sp + 1,
            n,
        ));
        proof {
            assert(branch@ =~= lines[i as int].skip(sp + 1));
        }
        let ghost outv = out@.map_values(|p: (HgChangesetId, Vec<u8>)| (p.0@, p.1@));
        out.push((cs, branch));
        proof {
            assert(spec_head_line(lines[i as int]) == Some((cs@, branch@)));
            assert(out@.map_values(|p: (HgChangesetId, Vec<u8>)| (p.0@, p.1@)) =~= outv + seq![
                (cs@, branch@),
            ]);
            lemma_head_list_step(lines.take(i as int), lines[i as int]);
            assert(lines.take(i + 1) =~= lines.take(i as int).push(lines[i as int]));
        }
        i = i + 1;
    }
    proof {
        assert(lines.take(lines.len() as int) =~= lines);
    }
    Some(out)
}

/// Appending one parsable line extends the parsed list by its record.
proof fn lemma_head_list_step(lines: Seq<Seq<u8>>, line: Seq<u8>)
    requires
        spec_head_list(lines) is Some,
        spec_head_line(line) is Some,
    ensures
        spec_head_list(lines.push(line)) == Some(
            spec_head_list(lines).unwrap().push(spec_head_line(line).unwrap()),
        ),
    decreases lines.len(),
{
    let x = spec_head_line(line).unwrap();
    if lines.len() == 0 {
        assert(lines.push(line)[0] == line);
        assert(lines.push(line).drop_first() =~= Seq::<Seq<u8>>::empty());
        assert(spec_head_list(lines.push(line).drop_first()) == Some(Seq::<
            (Seq<u8>, Seq<u8>),
        >::empty()));
        assert(spec_head_list(lines.push(line)) == Some(seq![x] + Seq::<
            (Seq<u8>, Seq<u8>),
        >::empty()));
        assert(spec_head_list(lines) == Some(Seq::<(Seq<u8>, Seq<u8>)>::empty()));
        assert(seq![x] + Seq::<(Seq<u8>, Seq<u8>)>::empty() =~= Seq::<
            (Seq<u8>, Seq<u8>),
        >::empty().push(x));
    } else {
        assert(lines.push(line)[0] == lines[0]);
        assert(lines.push(line).drop_first() =~= lines.drop_first().push(line));
        let h = spec_head_line(lines[0]).unwrap();
        let rest = spec_head_list(lines.drop_first()).unwrap();
        assert(spec_head_line(lines[0]) is Some && spec_head_list(lines.drop_first())
            is Some) by {
            assert(spec_head_list(lines) is Some);
        }
        lemma_head_list_step(lines.drop_first(), line);
        assert(spec_head_list(lines.drop_first().push(line)) == Some(rest.push(x)));
        assert(spec_head_list(lines.push(line)) == Some(seq![h] + rest.push(x)));
        assert(spec_head_list(lines) == Some(seq![h] + rest));
        assert(seq![h] + rest.push(x) =~= (seq![h] + rest).push(x));
    }
}

impl ChangesetHeads {
    /// Build a tracker holding exactly the given records, in order, each a
    /// parentless head carrying its branch. `None` when two records carry
    /// one changeset or the handle space cannot hold them.
    pub fn from_head_records(list: &Vec<(HgChangesetId, Vec<u8>)>) -> (r: Option<ChangesetHeads>)
        ensures
            match r {
                Some(h) => {
                    &&& h.wf()
                    &&& h.dag.nodes@.len() == list@.len()
                    &&& forall|i: int| 0 <= i < list@.len() ==> (#[trigger] h.dag.nodes@[i]).node
                        == list@[i].0 && h.dag.nodes@[i].data.branch@ == list@[i].1@
                        && h.dag.nodes@[i].parent1 is None && h.dag.nodes@[i].parent2 is None
                        && !h.dag.nodes@[i].data.has_children
                    &&& h.heads@.len() == list@.len()
                    &&& forall|k: int| 0 <= k < list@.len() ==> (#[trigger] h.heads@[k]).0 == k + 1
                },
                None => list@.len() + 1 > u32::MAX || exists|i: int, j: int|
                    0 <= i < j < list@.len() && (#[trigger] list@[i].0)@ == (
                    #[trigger] list@[j].0)@,
            },
    {
        let mut result = ChangesetHeads::new();
        let mut i: usize = 0;
        while i < list.len()
            invariant
                0 <= i <= list@.len(),
                result.wf(),
                result.dag.nodes@.len() == i,
                forall|k: int| 0 <= k < i ==> (#[trigger] result.dag.nodes@[k]).node == list@[k].0
                    && result.dag.nodes@[k].data.branch@ == list@[k].1@
                    && result.dag.nodes@[k].parent1 is None && result.dag.nodes@[k].parent2
                    is None && !result.dag.nodes@[k].data.has_children,
                result.heads@.len() == i,
                forall|k: int| 0 <= k < i ==> (#[trigger] result.heads@[k]).0 == k + 1,
            decreases list@.len() - i,
        {
            let cs = &list[i].0;
            if result.dag.nodes.len() >= 0xFFFF_FFFEusize {
                proof {
                    assert(list@.len() + 1 > u32::MAX);
                }
                return None;
            }
            let present = {
                proof {
                    crate::heads::lemma_heads_dag_wf(&result);
                }
                let found = result.dag.get(cs);
                match found {
                    Some(_) => true,
                    None => false,
                }
            };
            if present {
                proof {
                    crate::dag::lemma_find_from_props(result.dag.nodes@, *cs, 0);
                    let k = result.dag.spec_find(*cs).unwrap();
                    assert(result.dag.nodes@[k].node@ == list@[i as int].0@);
                    assert(result.dag.nodes@[k].node == list@[k].0);
                    assert(list@[k].0@ == list@[i as int].0@);
                }
                return None;
            }
            let ghost nodes0 = result.dag.nodes@;
            let ghost heads0 = result.heads@;
            let no_parents: Vec<&HgChangesetId> = Vec::new();
            proof {
                assert(no_parents@.map_values(|p: &HgChangesetId| *p) =~= Seq::<
                    HgChangesetId,
                >::empty());
            }
            result.add(cs, no_parents.as_slice(), list[i].1.as_slice());
            proof {
                assert(crate::dag::spec_found_parents(
                    nodes0,
                    Seq::<HgChangesetId>::empty(),
                ).len() == 0);
                assert(result.dag.nodes@.last().parent1 is None);
                assert(result.dag.nodes@.last().parent2 is None);
                assert(result.heads@ =~= heads0.push(result.heads@.last()));
                assert forall|k: int| 0 <= k < i + 1 implies (
                #[trigger] result.dag.nodes@[k]).node == list@[k].0
                    && result.dag.nodes@[k].data.branch@ == list@[k].1@
                    && result.dag.nodes@[k].parent1 is None && result.dag.nodes@[k].parent2
                    is None && !result.dag.nodes@[k].data.has_children by {
                    if k < i {
                        assert(crate::dag::same_shape(
                            nodes0.push(result.dag.nodes@.last()),
                            result.dag.nodes@,
                        ));
                        assert((nodes0.push(result.dag.nodes@.last()))[k] == nodes0[k]);
                        assert(result.dag.nodes@[k].node == nodes0[k].node);
                        assert(result.dag.nodes@[k].parent1 == nodes0[k].parent1);
                        assert(result.dag.nodes@[k].parent2 == nodes0[k].parent2);
                        assert(!crate::heads::flagged(result.dag.nodes@.last().parent1, k));
                        assert(!crate::heads::flagged(result.dag.nodes@.last().parent2, k));
                    }
                }
            }
            i = i + 1;
        }
        Some(result)
    }

    /// Rebuild the tracker from a persisted metadata commit: one
    /// `<head-id> <branch>` line per branch head in its body, each record
    /// becoming a parentless head. `None` on a malformed or duplicated
    /// record.
    pub fn from_metadata<S: Store>(store: &S, cid: &CommitId) -> (r: Option<ChangesetHeads>)
        ensures
            match r {
                Some(h) => h.wf() && forall|i: int| 0 <= i < h.dag.nodes@.len() ==> (
                #[trigger] h.dag.nodes@[i]).parent1 is None && h.dag.nodes@[i].parent2 is None
                    && !h.dag.nodes@[i].data.has_children,
                None => true,
            },
    {
        let commit = store.read_commit(cid)?;
        let list = parse_head_lines(commit.body.as_slice())?;
        Self::from_head_records(&list)
    }

    /// Rebuild the tracker from the currently recorded metadata, or start
    /// empty when none is recorded or it is malformed.
    pub fn from_stored_metadata<S: Store>(store: &S) -> (r: ChangesetHeads)
        ensures
            r.wf(),
    {
        match store.metadata_commit() {
            Some(cid) => match Self::from_metadata(store, &cid) {
                Some(h) => h,
                None => ChangesetHeads::new(),
            },
            None => ChangesetHeads::new(),
        }
    }
}

/// Whether a metadata commit is currently recorded. Nothing is promised of
/// the store's answer; callers gate on it before overwriting metadata.
pub fn has_metadata<S: Store>(store: &S) -> bool {
    match store.metadata_commit() {
        Some(_) => true,
        None => false,
    }
}

/// Replace the process-wide head tracker state with freshly loaded heads.
pub fn set_changeset_heads(heads: &mut ChangesetHeads, new_heads: ChangesetHeads)
    requires
        new_heads.wf(),
    ensures
        final(heads).wf(),
        final(heads).dag.nodes@ == new_heads.dag.nodes@,
        final(heads).heads@ == new_heads.heads@,
{
    *heads = new_heads;
}

/// Reload the head tracker from the persisted metadata.
pub fn reset_changeset_heads<S: Store>(store: &S, heads: &mut ChangesetHeads)
    ensures
        final(heads).wf(),
{
    let new_heads = ChangesetHeads::from_stored_metadata(store);
    *heads = new_heads;
}

/// The body and parent structure of the persisted metadata commit: the tree
/// entry for the bundle blob when one exists, one parent per branch head, and
/// one `<head-id> <branch>` line per branch head in the body.
pub open spec fn spec_metadata_commit_bytes(
    tree: Seq<u8>,
    parents: Seq<Seq<u8>>,
    heads_list: Seq<(Seq<u8>, Seq<u8>)>,
) -> Seq<u8> {
    kw_tree() + seq![0x20u8] + spec_hex(tree) + seq![0x0Au8] + spec_parent_lines(parents)
        + spec_metadata_author_lines() + spec_head_lines(heads_list)
}

/// The fixed author and committer lines of a metadata commit.
pub open spec fn spec_metadata_author_lines() -> Seq<u8> {
    kw_author_word() + seq![0x20u8] + spec_anon_ident() + seq![0x0Au8] + kw_committer_word()
        + seq![0x20u8] + spec_anon_ident() + seq![0x0Au8]
}

/// The anonymous identity the metadata commit carries: ` <cinnabar@git> 0
/// +0000`.
pub open spec fn spec_anon_ident() -> Seq<u8> {
    seq![
        0x20u8, 0x3Cu8, 0x63u8, 0x69u8, 0x6Eu8, 0x6Eu8, 0x61u8, 0x62u8, 0x61u8, 0x72u8, 0x40u8,
        0x67u8, 0x69u8, 0x74u8, 0x3Eu8, 0x20u8, 0x30u8, 0x20u8, 0x2Bu8, 0x30u8, 0x30u8, 0x30u8,
        0x30u8,
    ]
}

/// One `\n<hex-id> <branch>` record per branch head.
pub open spec fn spec_head_lines(heads_list: Seq<(Seq<u8>, Seq<u8>)>) -> Seq<u8>
    decreases heads_list.len(),
{
    if heads_list.len() == 0 {
        Seq::empty()
    } else {
        seq![0x0Au8] + spec_hex(heads_list[0].0) + seq![0x20u8] + heads_list[0].1
            + spec_head_lines(heads_list.drop_first())
    }
}

/// Build the metadata commit's raw bytes.
pub fn metadata_commit_bytes(
    tree: &TreeId,
    parents: &Vec<CommitId>,
    heads_list: &Vec<(HgChangesetId, Vec<u8>)>,
) -> (r: Vec<u8>)
    ensures
        r@ == spec_metadata_commit_bytes(
            tree@,
            parents@.map_values(|p: CommitId| p@),
            heads_list@.map_values(|p: (HgChangesetId, Vec<u8>)| (p.0@, p.1@)),
        ),
{
    let ghost pv = parents@.map_values(|p: CommitId| p@);
    let ghost hv = heads_list@.map_values(|p: (HgChangesetId, Vec<u8>)| (p.0@, p.1@));
    let mut out: Vec<u8> = Vec::new();
    out.push(0x74);
    out.push(0x72);
    out.push(0x65);
    out.push(0x65);
    out.push(0x20);
    let th = tree.to_hex();
    append_bytes(&mut out, th.as_slice());
    out.push(0x0A);
    proof {
        assert(out@ =~= kw_tree() + seq![0x20u8] + spec_hex(tree@) + seq![0x0Au8]);
    }
    let ghost head = out@;
    let mut i: usize = 0;
    proof {
        assert(pv.skip(0) =~= pv);
    }
    while i < parents.len()
        invariant
            0 <= i <= parents@.len(),
            pv == parents@.map_values(|p: CommitId| p@),
            out@ + spec_parent_lines(pv.skip(i as int)) == head + spec_parent_lines(pv),
        decreases parents@.len() - i,
    {
        proof {
            assert(pv.skip(i as int)[0] == pv[i as int]);
            assert(pv[i as int] == parents@[i as int]@);
            assert(pv.skip(i as int).drop_first() =~= pv.skip(i + 1));
        }
        out.push(0x70);
        out.push(0x61);
        out.push(0x72);
        out.push(0x65);
        out.push(0x6E);
        out.push(0x74);
        out.push(0x20);
        let ph = parents[i].to_hex();
        append_bytes(&mut out, ph.as_slice());
        out.push(0x0A);
        i = i + 1;
    }
    proof {
        assert(pv.skip(parents@.len() as int) =~= Seq::<Seq<u8>>::empty());
        assert(out@ + Seq::<u8>::empty() =~= out@);
        assert(out@ =~= head + spec_parent_lines(pv));
    }
    let ident = anon_ident_vec();
    out.push(0x61);
    out.push(0x75);
    out.push(0x74);
    out.push(0x68);
    out.push(0x6F);
    out.push(0x72);
    out.push(0x20);
    append_bytes(&mut out, ident.as_slice());
    out.push(0x0A);
    out.push(0x63);
    out.push(0x6F);
    out.push(0x6D);
    out.push(0x6D);
    out.push(0x69);
    out.push(0x74);
    out.push(0x74);
    out.push(0x65);
    out.push(0x72);
    out.push(0x20);
    append_bytes(&mut out, ident.as_slice());
    out.push(0x0A);
    let ghost mid = out@;
    proof {
        assert(mid =~= head + spec_parent_lines(pv) + spec_metadata_author_lines());
        assert(hv.skip(0) =~= hv);
    }
    let mut k: usize = 0;
    while k < heads_list.len()
        invariant
            0 <= k <= heads_list@.len(),
            hv == heads_list@.map_values(|p: (HgChangesetId, Vec<u8>)| (p.0@, p.1@)),
            out@ + spec_head_lines(hv.skip(k as int)) == mid + spec_head_lines(hv),
        decreases heads_list@.len() - k,
    {
        proof {
            assert(hv.skip(k as int)[0] == hv[k as int]);
            assert(hv[k as int] == (heads_list@[k as int].0@, heads_list@[k as int].1@));
            assert(hv.skip(k as int).drop_first() =~= hv.skip(k + 1));
        }
        out.push(0x0A);
        let hh = heads_list[k].0.to_hex();
        append_bytes(&mut out, hh.as_slice());
        out.push(0x20);
        append_bytes(&mut out, heads_list[k].1.as_slice());
        k = k + 1;
    }
    proof {
        assert(hv.skip(heads_list@.len() as int) =~= Seq::<(Seq<u8>, Seq<u8>)>::empty());
        assert(out@ + Seq::<u8>::empty() =~= out@);
        assert(out@ =~= spec_metadata_commit_bytes(tree@, pv, hv));
    }
    out
}

/// The anonymous identity bytes.
fn anon_ident_vec() -> (r: Vec<u8>)
    ensures
        r@ == spec_anon_ident(),
{
    let mut v: Vec<u8> = Vec::new();
    v.push(0x20);
    v.push(0x3C);
    v.push(0x63);
    v.push(0x69);
    v.push(0x6E);
    v.push(0x6E);
    v.push(0x61);
    v.push(0x62);
    v.push(0x61);
    v.push(0x72);
    v.push(0x40);
    v.push(0x67);
    v.push(0x69);
    v.push(0x74);
    v.push(0x3E);
    v.push(0x20);
    v.push(0x30);
    v.push(0x20);
    v.push(0x2B);
    v.push(0x30);
    v.push(0x30);
    v.push(0x30);
    v.push(0x30);
    proof {
        assert(v@ =~= spec_anon_ident());
    }
    v
}

/// The tree entry naming the bundle blob: `100644 bundle\0` and the raw blob
/// id.
pub open spec fn spec_bundle_tree_entry(blob: Seq<u8>) -> Seq<u8> {
    seq![
        0x31u8, 0x30u8, 0x30u8, 0x36u8, 0x34u8, 0x34u8, 0x20u8, 0x62u8, 0x75u8, 0x6Eu8, 0x64u8,
        0x6Cu8, 0x65u8, 0x00u8,
    ] + blob
}

/// The metadata commit's tree contents: the bundle blob's entry when a
/// bundle was imported this session, else empty.
pub fn bundle_tree_bytes(bundle_blob: Option<&BlobId>) -> (r: Vec<u8>)
    ensures
        match bundle_blob {
            Some(blob) => r@ == spec_bundle_tree_entry(blob@),
            None => r@ == Seq::<u8>::empty(),
        },
{
    let mut tree_bytes: Vec<u8> = Vec::new();
    match bundle_blob {
        Some(blob) => {
            tree_bytes.push(0x31);
            tree_bytes.push(0x30);
            tree_bytes.push(0x30);
            tree_bytes.push(0x36);
            tree_bytes.push(0x34);
            tree_bytes.push(0x34);
            tree_bytes.push(0x20);
            tree_bytes.push(0x62);
            tree_bytes.push(0x75);
            tree_bytes.push(0x6E);
            tree_bytes.push(0x64);
            tree_bytes.push(0x6C);
            tree_bytes.push(0x65);
            tree_bytes.push(0x00);
            append_bytes(&mut tree_bytes, blob.as_raw_bytes().as_slice());
            proof {
                assert(tree_bytes@ =~= spec_bundle_tree_entry(blob@));
            }
        },
        None => {
            proof {
                assert(tree_bytes@ =~= Seq::<u8>::empty());
            }
        },
    }
    tree_bytes
}

/// Persist the head tracker: store a tree (holding the bundle blob entry when
/// one was imported), then a commit whose parents are the branch heads'
/// native commits and whose body lists every branch head. Heads whose native
/// commit the note mapping does not know are left out of the parent list.
/// The tree bytes and the commit bytes are fixed by `bundle_tree_bytes` and
/// `metadata_commit_bytes`; the returned id is whatever the store assigned
/// the commit.
pub fn store_changesets_metadata<S: Store>(
    store: &mut S,
    heads: &ChangesetHeads,
    bundle_blob: Option<&BlobId>,
) -> (r: CommitId)
    requires
        heads.wf(),
{
    let tree_bytes = bundle_tree_bytes(bundle_blob);
    let tree_id = store.store_tree(tree_bytes.as_slice());
    let branch_heads = heads.branch_heads();
    let mut parents: Vec<CommitId> = Vec::new();
    let mut i: usize = 0;
    while i < branch_heads.len()
        invariant
            0 <= i <= branch_heads@.len(),
        decreases branch_heads@.len() - i,
    {
        match store.hg2git_changeset(&branch_heads[i].0) {
            Some(g) => {
                parents.push(g.id);
            },
            None => {
            },
        }
        i = i + 1;
    }
    let commit_bytes = metadata_commit_bytes(&tree_id, &parents, &branch_heads);
    store.store_commit(commit_bytes.as_slice())
}

/// Whether every per-file consistency check passed.
pub fn all_checks_pass(results: &Vec<bool>) -> (r: bool)
    ensures
        r <==> (forall|i: int| 0 <= i < results@.len() ==> results@[i]),
{
    let mut i: usize = 0;
    while i < results.len()
        invariant
            0 <= i <= results@.len(),
            forall|j: int| 0 <= j < i ==> results@[j],
        decreases results@.len() - i,
    {
        if !results[i] {
            return false;
        }
        i = i + 1;
    }
    true
}

/// Re-validate every tracked file root and head against the store's hash
/// check. On any failure, durably record the broken marker pointing at the
/// just-imported metadata state, exactly once, before reporting failure.
/// With nothing tracked there is nothing to fail: the result is true and the
/// marker is untouched; otherwise the result is the conjunction of the
/// store's per-entry answers, whatever they are.
pub fn do_check_files<S: Store>(
    store: &mut S,
    roots: &Vec<(HgFileId, HgFileId, HgFileId)>,
    metadata_head: &CommitId,
) -> (r: bool)
    ensures
        roots@.len() == 0 ==> r,
{
    let mut results: Vec<bool> = Vec::new();
    let mut i: usize = 0;
    while i < roots.len()
        invariant
            0 <= i <= roots@.len(),
            results@.len() == i,
        decreases roots@.len() - i,
    {
        let entry = &roots[i];
        let ok = store.check_file(&entry.0, &entry.1, &entry.2);
        results.push(ok);
        i = i + 1;
    }
    let all_ok = all_checks_pass(&results);
    if !all_ok {
        let name = broken_ref_bytes();
        store.update_ref(name.as_slice(), metadata_head);
    }
    all_ok
}

/// The broken-marker ref name: `refs/cinnabar/broken`.
pub open spec fn spec_broken_ref() -> Seq<u8> {
    crate::merge::spec_cinnabar_prefix() + seq![0x62u8, 0x72u8, 0x6Fu8, 0x6Bu8, 0x65u8, 0x6Eu8]
}

/// The bytes of the broken-marker ref name.
pub fn broken_ref_bytes() -> (r: Vec<u8>)
    ensures
        r@ == spec_broken_ref(),
{
    let mut v: Vec<u8> = Vec::new();
    // refs/cinnabar/broken
    v.push(0x72);
    v.push(0x65);
    v.push(0x66);
    v.push(0x73);
    v.push(0x2F);
    v.push(0x63);
    v.push(0x69);
    v.push(0x6E);
    v.push(0x6E);
    v.push(0x61);
    v.push(0x62);
    v.push(0x61);
    v.push(0x72);
    v.push(0x2F);
    v.push(0x62);
    v.push(0x72);
    v.push(0x6F);
    v.push(0x6B);
    v.push(0x65);
    v.push(0x6E);
    proof {
        assert(v@ =~= spec_broken_ref());
    }
    v
}

/// Collect the tag files of every true head, merging each head's tags in
/// head order; a tag file seen on several heads is read once.
pub fn get_tags<S: Store>(store: &S, heads: &ChangesetHeads) -> (r: crate::tags::TagSet)
    requires
        heads.wf(),
    ensures
        crate::tags::tags_distinct(r@),
{
    let mut tags = crate::tags::TagSet::new();
    let head_ids = heads.heads();
    let mut seen_blobs: Vec<BlobId> = Vec::new();
    let mut i: usize = 0;
    while i < head_ids.len()
        invariant
            0 <= i <= head_ids@.len(),
            crate::tags::tags_distinct(tags@),
        decreases head_ids@.len() - i,
    {
        let head = &head_ids[i];
        match store.hg2git_changeset(head) {
            Some(git_head) => {
                match store.hgtags_blob(&git_head) {
                    Some(blob) => {
                        let mut already = false;
                        let mut k: usize = 0;
                        while k < seen_blobs.len()
                            invariant
                                0 <= k <= seen_blobs@.len(),
                            decreases seen_blobs@.len() - k,
                        {
                            if seen_blobs[k] == blob {
                                already = true;
                            }
                            k = k + 1;
                        }
                        if !already {
                            seen_blobs.push(blob);
                            match store.read_blob(&blob) {
                                Some(bytes) => {
                                    match crate::tags::TagSet::from_buf(bytes.as_slice()) {
                                        Some(incoming) => {
                                            tags.merge(incoming);
                                        },
                                        None => {
                                        },
                                    }
                                },
                                None => {
                                },
                            }
                        }
                    },
                    None => {
                    },
                }
            },
            None => {
            },
        }
        i = i + 1;
    }
    tags
}

} // verus!
