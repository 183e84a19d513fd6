use std::collections::HashMap;

use hg_store::changeset::{Commit, RawHgChangeset};
use hg_store::heads::ChangesetHeads;
use hg_store::import::{
    apply_chunk, store_changegroup, FileTracker, ImportError, RevChunk,
};
use hg_store::oid::{
    BlobId, CommitId, GitChangesetId, GitManifestId, HgChangesetId, HgFileId, HgManifestId,
    TreeId,
};
use hg_store::patch::PatchInfo;
use hg_store::store::{
    create_changeset, do_check_files, get_tags, store_changesets_metadata, GraftError, RawHgFile,
    Store,
};
use sha1::{Digest, Sha1};

#[derive(Default)]
struct MockStore {
    counter: u16,
    blobs: HashMap<[u8; 20], Vec<u8>>,
    commits: HashMap<[u8; 20], Vec<u8>>,
    hg2git: HashMap<[u8; 20], [u8; 20]>,
    git2hg: HashMap<[u8; 20], [u8; 20]>,
    failing_files: Vec<[u8; 20]>,
    hgtags: HashMap<[u8; 20], [u8; 20]>,
    ref_updates: Vec<(Vec<u8>, [u8; 20])>,
    manifest_chunks: usize,
    file_chunks: usize,
}

impl MockStore {
    fn fresh(&mut self) -> [u8; 20] {
        self.counter += 1;
        let mut id = [0xEE; 20];
        id[18] = (self.counter >> 8) as u8;
        id[19] = self.counter as u8;
        id
    }

    fn parse_commit(bytes: &[u8]) -> Commit {
        let text = bytes;
        let blank = text.windows(2).position(|w| w == b"\n\n").unwrap();
        let header = &text[..blank];
        let body = text[blank + 2..].to_vec();
        let mut tree = TreeId::from_raw_bytes([0; 20]);
        let mut parents = Vec::new();
        let mut author = Vec::new();
        let mut committer = Vec::new();
        for line in header.split(|&b| b == b'\n') {
            if let Some(rest) = line.strip_prefix(b"tree ") {
                tree = TreeId::from_bytes(rest).unwrap();
            } else if let Some(rest) = line.strip_prefix(b"parent ") {
                parents.push(CommitId::from_bytes(rest).unwrap());
            } else if let Some(rest) = line.strip_prefix(b"author ") {
                author = rest.to_vec();
            } else if let Some(rest) = line.strip_prefix(b"committer ") {
                committer = rest.to_vec();
            }
        }
        Commit { tree, parents, author, committer, body }
    }
}

impl Store for MockStore {
    fn hg2git_changeset(&self, id: &HgChangesetId) -> Option<GitChangesetId> {
        self.hg2git
            .get(&id.raw)
            .map(|raw| GitChangesetId::from_commit(CommitId::from_raw_bytes(*raw)))
    }

    fn hg2git_manifest(&self, id: &HgManifestId) -> Option<GitManifestId> {
        self.hg2git
            .get(&id.raw)
            .map(|raw| GitManifestId::from_commit(CommitId::from_raw_bytes(*raw)))
    }

    fn git2hg(&self, id: &GitChangesetId) -> Option<BlobId> {
        self.git2hg.get(&id.id.raw).map(|raw| BlobId::from_raw_bytes(*raw))
    }

    fn read_blob(&self, id: &BlobId) -> Option<Vec<u8>> {
        self.blobs.get(&id.raw).cloned()
    }

    fn read_commit(&self, id: &CommitId) -> Option<Commit> {
        self.commits.get(&id.raw).map(|b| Self::parse_commit(b))
    }

    fn store_blob(&mut self, data: &[u8]) -> BlobId {
        let id = self.fresh();
        self.blobs.insert(id, data.to_vec());
        BlobId::from_raw_bytes(id)
    }

    fn store_commit(&mut self, data: &[u8]) -> CommitId {
        let id = self.fresh();
        self.commits.insert(id, data.to_vec());
        CommitId::from_raw_bytes(id)
    }

    fn store_tree(&mut self, _data: &[u8]) -> TreeId {
        TreeId::from_raw_bytes(self.fresh())
    }

    fn create_tree_from(&mut self, manifest_tree: &TreeId, _reference: Option<&TreeId>) -> TreeId {
        *manifest_tree
    }

    fn empty_tree(&mut self) -> TreeId {
        TreeId::from_raw_bytes([0x44; 20])
    }

    fn generate_manifest(&self, _id: &GitManifestId) -> Option<Vec<u8>> {
        None
    }

    fn set_changeset_note(&mut self, cs: &HgChangesetId, commit: &CommitId) {
        self.hg2git.insert(cs.raw, commit.raw);
    }

    fn set_metadata_note(&mut self, cs: &HgChangesetId, blob: &BlobId) {
        let commit = self.hg2git[&cs.raw];
        self.git2hg.insert(commit, blob.raw);
    }

    fn set_replace(&mut self, _replaced: &CommitId, _replace_with: &CommitId) {}

    fn graft(
        &mut self,
        _cs: &HgChangesetId,
        _raw: &[u8],
        _tree: &TreeId,
        _parents: &Vec<GitChangesetId>,
    ) -> Result<Option<CommitId>, GraftError> {
        Ok(None)
    }

    fn grafting(&self) -> bool {
        false
    }

    fn store_manifest_chunk(&mut self, _chunk: &RevChunk) {
        self.manifest_chunks += 1;
    }

    fn store_file_chunk(&mut self, _chunk: &RevChunk) {
        self.file_chunks += 1;
    }

    fn check_file(&self, node: &HgFileId, _p1: &HgFileId, _p2: &HgFileId) -> bool {
        !self.failing_files.contains(&node.raw)
    }

    fn update_ref(&mut self, name: &[u8], target: &CommitId) {
        self.ref_updates.push((name.to_vec(), target.raw));
    }

    fn metadata_commit(&self) -> Option<CommitId> {
        None
    }

    fn hgtags_blob(&self, head: &GitChangesetId) -> Option<BlobId> {
        self.hgtags.get(&head.id.raw).map(|raw| BlobId::from_raw_bytes(*raw))
    }
}

fn sha1_node(parents: &[HgChangesetId], data: &[u8]) -> HgChangesetId {
    let mut sorted: Vec<[u8; 20]> = vec![[0; 20], [0; 20]];
    for (i, p) in parents.iter().take(2).enumerate() {
        sorted[i] = p.raw;
    }
    sorted.sort();
    let mut h = Sha1::new();
    h.update(sorted[0]);
    h.update(sorted[1]);
    h.update(data);
    HgChangesetId::from_raw_bytes(h.finalize().into())
}

fn full_chunk(node: HgChangesetId, parents: &[HgChangesetId], delta: HgChangesetId, reference_len: usize, data: &[u8]) -> RevChunk {
    RevChunk {
        node,
        parent1: parents.get(0).copied().unwrap_or(HgChangesetId::null()),
        parent2: parents.get(1).copied().unwrap_or(HgChangesetId::null()),
        delta_node: delta,
        hunks: vec![PatchInfo { start: 0, end: reference_len, data: data.to_vec() }],
    }
}

fn changeset_text(manifest_hex: &str, message: &str) -> Vec<u8> {
    format!(
        "{}\nAlice <alice@example>\n1700000000 0\n\n{}",
        manifest_hex, message
    )
    .into_bytes()
}

#[test]
fn two_changeset_bundle_shortcut_matches_reread() {
    // changeset 2 deltas against changeset 1: the shortcut path (delta equal
    // to the previous chunk) and the read-back path must store identical
    // bytes
    let f1 = changeset_text(&"0".repeat(40), "first");
    let parents1: Vec<HgChangesetId> = Vec::new();
    let id1 = sha1_node(&parents1, &f1);
    let f2 = changeset_text(&"0".repeat(40), "second, longer than the first");
    let parents2 = vec![id1];
    let id2 = sha1_node(&parents2, &f2);

    // one bundle carrying both: the shortcut path
    let mut store_a = MockStore::default();
    let mut heads_a = ChangesetHeads::new();
    let mut tracker_a = FileTracker::new();
    let chunk1 = full_chunk(id1, &parents1, HgChangesetId::null(), 0, &f1);
    let chunk2 = full_chunk(id2, &parents2, id1, f1.len(), &f2);
    store_changegroup(
        &mut store_a,
        &mut heads_a,
        &mut tracker_a,
        false,
        &vec![chunk1, chunk2],
        &Vec::new(),
        &Vec::new(),
    )
    .unwrap();

    // two bundles: the second changeset resolves its reference by re-reading
    // changeset 1 from storage and diffing explicitly
    let mut store_b = MockStore::default();
    let mut heads_b = ChangesetHeads::new();
    let mut tracker_b = FileTracker::new();
    let chunk1 = full_chunk(id1, &parents1, HgChangesetId::null(), 0, &f1);
    store_changegroup(
        &mut store_b,
        &mut heads_b,
        &mut tracker_b,
        false,
        &vec![chunk1],
        &Vec::new(),
        &Vec::new(),
    )
    .unwrap();
    let chunk2 = full_chunk(id2, &parents2, id1, f1.len(), &f2);
    store_changegroup(
        &mut store_b,
        &mut heads_b,
        &mut tracker_b,
        false,
        &vec![chunk2],
        &Vec::new(),
        &Vec::new(),
    )
    .unwrap();

    // both stores regenerate byte-identical changesets
    for (store, heads) in [(&store_a, &heads_a), (&store_b, &heads_b)] {
        assert_eq!(heads.heads().len(), 1);
        assert_eq!(heads.heads()[0].raw, id2.raw);
        let git2 = store.hg2git_changeset(&id2).unwrap();
        let rebuilt = RawHgChangeset::read(store, &git2).unwrap();
        assert_eq!(rebuilt.0, f2);
        let git1 = store.hg2git_changeset(&id1).unwrap();
        let rebuilt1 = RawHgChangeset::read(store, &git1).unwrap();
        assert_eq!(rebuilt1.0, f1);
    }
}

#[test]
fn malformed_chunk_aborts_with_diagnostic() {
    // a hunk starting before the previous end is fatal and names the
    // changeset
    let f1 = changeset_text(&"0".repeat(40), "first");
    let id1 = sha1_node(&[], &f1);
    let bad = RevChunk {
        node: id1,
        parent1: HgChangesetId::null(),
        parent2: HgChangesetId::null(),
        delta_node: HgChangesetId::null(),
        hunks: vec![
            PatchInfo { start: 0, end: 4, data: b"x".to_vec() },
            PatchInfo { start: 2, end: 6, data: b"y".to_vec() },
        ],
    };
    let mut store = MockStore::default();
    let mut heads = ChangesetHeads::new();
    let mut tracker = FileTracker::new();
    let err = store_changegroup(
        &mut store,
        &mut heads,
        &mut tracker,
        false,
        &vec![bad],
        &Vec::new(),
        &Vec::new(),
    )
    .unwrap_err();
    match &err {
        ImportError::MalformedChunk(id) => assert_eq!(id.raw, id1.raw),
        other => panic!("unexpected error: {:?}", other),
    }
    assert!(!err.message().is_empty());
    // nothing was imported
    assert!(heads.is_empty());

    // a hunk starting beyond the reference is equally fatal
    let bad2 = RevChunk {
        node: id1,
        parent1: HgChangesetId::null(),
        parent2: HgChangesetId::null(),
        delta_node: HgChangesetId::null(),
        hunks: vec![PatchInfo { start: 5, end: 5, data: b"x".to_vec() }],
    };
    match apply_chunk(b"abc", &bad2) {
        Err(ImportError::MalformedChunk(id)) => assert_eq!(id.raw, id1.raw),
        other => panic!("unexpected result: {:?}", other),
    }
}

#[test]
fn root_consistency_failure_records_broken_ref_once() {
    // a file chunk chain introducing a metadata-marked root; the recorded
    // root later fails the hash verification: the broken marker is written
    // exactly once
    let root = HgChangesetId::from_raw_bytes([0xA1; 20]);
    let child = HgChangesetId::from_raw_bytes([0xA2; 20]);
    let root_chunk = RevChunk {
        node: root,
        parent1: HgChangesetId::null(),
        parent2: HgChangesetId::null(),
        delta_node: HgChangesetId::null(),
        hunks: vec![PatchInfo { start: 0, end: 0, data: b"\x01\ncopy: x\x01\ndata".to_vec() }],
    };
    let child_chunk = RevChunk {
        node: child,
        parent1: root,
        parent2: HgChangesetId::null(),
        delta_node: root,
        hunks: vec![PatchInfo { start: 0, end: 0, data: b"more".to_vec() }],
    };
    let mut store = MockStore::default();
    let mut heads = ChangesetHeads::new();
    let mut tracker = FileTracker::new();
    store_changegroup(
        &mut store,
        &mut heads,
        &mut tracker,
        false,
        &Vec::new(),
        &Vec::new(),
        &vec![vec![root_chunk, child_chunk]],
    )
    .unwrap();
    assert_eq!(store.file_chunks, 2);
    // the root stays tracked (still an unresolved root), the child is a head
    assert_eq!(tracker.entries().len(), 2);
    store.failing_files.push([0xA2; 20]);
    let metadata_head = CommitId::from_raw_bytes([0x77; 20]);
    let ok = do_check_files(&mut store, tracker.entries(), &metadata_head);
    assert!(!ok);
    assert_eq!(store.ref_updates.len(), 1);
    assert_eq!(store.ref_updates[0].0, b"refs/cinnabar/broken".to_vec());
    assert_eq!(store.ref_updates[0].1, [0x77; 20]);

    // with every check passing, no marker is written
    let mut clean = MockStore::default();
    let ok = do_check_files(&mut clean, tracker.entries(), &metadata_head);
    assert!(ok);
    assert!(clean.ref_updates.is_empty());
}

#[test]
fn untracked_without_metadata_or_marker() {
    // without prior history, a parentless file whose first hunk does not
    // carry the metadata marker is not tracked
    let plain = RevChunk {
        node: HgChangesetId::from_raw_bytes([0xB1; 20]),
        parent1: HgChangesetId::null(),
        parent2: HgChangesetId::null(),
        delta_node: HgChangesetId::null(),
        hunks: vec![PatchInfo { start: 0, end: 0, data: b"plain contents".to_vec() }],
    };
    let mut tracker = FileTracker::new();
    tracker.track(false, &plain);
    assert!(tracker.entries().is_empty());
    // with prior history, everything is tracked
    let mut tracker = FileTracker::new();
    tracker.track(true, &plain);
    assert_eq!(tracker.entries().len(), 1);
}

#[test]
fn create_changeset_hashes_and_registers() {
    let mut store = MockStore::default();
    let mut heads = ChangesetHeads::new();
    // a parentless native commit becomes a fresh foreign changeset
    let commit_text = b"tree 1111111111111111111111111111111111111111\nauthor Alice <alice@example> 1700000000 +0000\ncommitter Alice <alice@example> 1700000000 +0000\n\nfresh work".to_vec();
    let cid = store.store_commit(&commit_text);
    let manifest = HgManifestId::from_raw_bytes([0x33; 20]);
    let (node, _metadata_id) =
        create_changeset(&mut store, &mut heads, &cid, &manifest, Some(b"a\0b".to_vec())).unwrap();
    // the id is the digest of two null parents and the reconstructed bytes
    let git = store.hg2git_changeset(&node).unwrap();
    let rebuilt = RawHgChangeset::read(&store, &git).unwrap();
    let expected = sha1_node(&[], &rebuilt.0);
    assert_eq!(node.raw, expected.raw);
    // and it is now the only head, on the default branch
    let bh = heads.branch_heads();
    assert_eq!(bh.len(), 1);
    assert_eq!(bh[0].0.raw, node.raw);
    assert_eq!(bh[0].1, b"default".to_vec());
}

#[test]
fn file_read_assembles_metadata_frame() {
    let mut store = MockStore::default();
    let meta = store.store_blob(b"copy: source");
    let content = store.store_blob(b"file contents");
    let fid = hg_store::oid::GitFileId::from_blob(content);
    let mid = hg_store::oid::GitFileMetadataId::from_blob(meta);
    let with_meta = RawHgFile::read(&store, &fid, Some(&mid)).unwrap();
    assert_eq!(with_meta.0, b"\x01\ncopy: source\x01\nfile contents".to_vec());
    let without = RawHgFile::read(&store, &fid, None).unwrap();
    assert_eq!(without.0, b"file contents".to_vec());
}

#[test]
fn persisted_metadata_restores_branch_heads() {
    // the durable encoding of the head tracker: one "<head-id> <branch>" line
    // per branch head in the metadata commit's body
    let mut store = MockStore::default();
    let mut heads = ChangesetHeads::new();
    let a = HgChangesetId::from_raw_bytes([0x0A; 20]);
    let b = HgChangesetId::from_raw_bytes([0x0B; 20]);
    heads.add(&a, &[], b"default");
    heads.add(&b, &[&a], b"feature");
    let cid = store_changesets_metadata(&mut store, &heads, None);
    let restored = ChangesetHeads::from_metadata(&store, &cid).unwrap();
    let original: Vec<(Vec<u8>, Vec<u8>)> = heads
        .branch_heads()
        .into_iter()
        .map(|(id, branch)| (id.to_hex(), branch))
        .collect();
    let reloaded: Vec<(Vec<u8>, Vec<u8>)> = restored
        .branch_heads()
        .into_iter()
        .map(|(id, branch)| (id.to_hex(), branch))
        .collect();
    assert_eq!(original, reloaded);
}

#[test]
fn tags_are_collected_from_heads() {
    let mut store = MockStore::default();
    let mut heads = ChangesetHeads::new();
    let head = HgChangesetId::from_raw_bytes([0x0C; 20]);
    heads.add(&head, &[], b"default");
    let git_head = store.fresh();
    store.hg2git.insert(head.raw, git_head);
    let tag_file = format!("{} v1.0\n", "1f".repeat(20));
    let blob = store.store_blob(tag_file.as_bytes());
    store.hgtags.insert(git_head, blob.raw);
    let tags = get_tags(&store, &heads);
    let pairs = tags.iter();
    assert_eq!(pairs.len(), 1);
    assert_eq!(pairs[0].0, b"v1.0".to_vec());
    assert_eq!(pairs[0].1.raw, [0x1f; 20]);
}

#[test]
fn empty_changegroup_succeeds() {
    let mut store = MockStore::default();
    let mut heads = ChangesetHeads::new();
    let mut tracker = FileTracker::new();
    let r = store_changegroup(
        &mut store,
        &mut heads,
        &mut tracker,
        false,
        &Vec::new(),
        &Vec::new(),
        &Vec::new(),
    );
    assert!(r.is_ok());
    assert!(heads.heads().is_empty());
}
