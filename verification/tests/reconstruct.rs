use hg_store::changeset::{hg_node_hash, Commit, RawHgChangeset};
use hg_store::metadata::GitChangesetMetadata;
use hg_store::oid::{CommitId, HgChangesetId, TreeId};
use hg_store::patch::{GitChangesetPatch, PatchInfo};
use sha1::{Digest, Sha1};

fn sha1_node(parents: &[HgChangesetId], data: &[u8]) -> HgChangesetId {
    let mut sorted: Vec<[u8; 20]> = vec![[0; 20], [0; 20]];
    for (i, p) in parents.iter().take(2).enumerate() {
        sorted[i] = p.raw;
    }
    sorted.sort();
    let mut h = Sha1::new();
    h.update(sorted[0]);
    h.update(sorted[1]);
    h.update(data);
    HgChangesetId::from_raw_bytes(h.finalize().into())
}

fn commit(author: &str, committer: &str, body: &str) -> Commit {
    Commit {
        tree: TreeId::from_raw_bytes([0x11; 20]),
        parents: Vec::<CommitId>::new(),
        author: author.as_bytes().to_vec(),
        committer: committer.as_bytes().to_vec(),
        body: body.as_bytes().to_vec(),
    }
}

fn raw_changeset(manifest_hex: &str, rest: &str) -> Vec<u8> {
    format!("{}\n{}", manifest_hex, rest).into_bytes()
}

#[test]
fn derive_then_reconstruct_without_patch() {
    // the canonical reconstruction already matches: no overrides, no patch
    let author = "Alice <alice@example> 1700000000 +0100";
    let c = commit(author, author, "a message");
    let f = raw_changeset(
        &"ab".repeat(20),
        "Alice <alice@example>\n1700000000 -3600 branch:default\nfile1\nfile2\n\na message",
    );
    let parents: Vec<HgChangesetId> = Vec::new();
    let id = sha1_node(&parents, &f);
    let raw = RawHgChangeset(f.clone());
    let md = GitChangesetMetadata::generate(&c, &id, &raw, &parents).unwrap();
    assert!(md.author.is_none());
    assert!(md.patch.is_none());
    assert_eq!(md.manifest_id.to_hex(), "ab".repeat(20).into_bytes());
    let rebuilt = RawHgChangeset::from_metadata(&c, &md, &parents).unwrap();
    assert_eq!(rebuilt.0, f);
}

#[test]
fn derive_then_reconstruct_with_patch_and_overrides() {
    // the commit's derived authorship differs: an author override and a patch
    // cover the difference
    let c = commit(
        "Alice Native <alice@example> 1700009999 +0000",
        "Bob <bob@example> 1700009999 +0000",
        "another message",
    );
    let f = raw_changeset(
        &"cd".repeat(20),
        "Alice <alice@example>\n1700000000 -3600\nzz-last-file\naa-first-file\n\nanother message",
    );
    let parents: Vec<HgChangesetId> = Vec::new();
    let id = sha1_node(&parents, &f);
    let raw = RawHgChangeset(f.clone());
    let md = GitChangesetMetadata::generate(&c, &id, &raw, &parents).unwrap();
    assert_eq!(md.author, Some(b"Alice <alice@example>".to_vec()));
    // the file list was unsorted in the original: the patch restores it
    assert!(md.patch.is_some());
    let rebuilt = RawHgChangeset::from_metadata(&c, &md, &parents).unwrap();
    assert_eq!(rebuilt.0, f);
}

#[test]
fn conflict_adjustment_truncates_trailing_nuls() {
    // a patch appends two NUL bytes; the target id is the hash of the true
    // (shorter) bytes, so the adjustment strips them again
    let author = "Alice <alice@example> 1700000000 +0000";
    let c = commit(author, author, "msg");
    let base = GitChangesetMetadata {
        changeset_id: HgChangesetId::null(),
        manifest_id: hg_store::oid::HgManifestId::from_raw_bytes([0xEF; 20]),
        author: None,
        extra: None,
        files: None,
        patch: None,
    };
    let parents: Vec<HgChangesetId> = Vec::new();
    let canonical = RawHgChangeset::from_metadata(&c, &base, &parents).unwrap().0;
    let id = sha1_node(&parents, &canonical);
    let patch = GitChangesetPatch::from_patch_info(&vec![PatchInfo {
        start: canonical.len(),
        end: canonical.len(),
        data: b"\x00\x00".to_vec(),
    }]);
    let md = GitChangesetMetadata { changeset_id: id, patch: Some(patch), ..base };
    let rebuilt = RawHgChangeset::from_metadata(&c, &md, &parents).unwrap();
    assert_eq!(rebuilt.0, canonical);
    // with a null target id the adjustment is off and the NULs stay
    let md_null = GitChangesetMetadata { changeset_id: HgChangesetId::null(), ..md };
    let kept = RawHgChangeset::from_metadata(&c, &md_null, &parents).unwrap();
    let mut padded = canonical.clone();
    padded.extend_from_slice(b"\x00\x00");
    assert_eq!(kept.0, padded);
}

#[test]
fn changeset_parse_fields() {
    let f = raw_changeset(
        &"ab".repeat(20),
        "Alice <alice@example>\n123 0 branch:dev\nf1\nf2\n\nbody\nwith lines",
    );
    let cs = RawHgChangeset(f).parse().unwrap();
    assert_eq!(cs.manifest.to_hex(), "ab".repeat(20).into_bytes());
    assert_eq!(cs.author, b"Alice <alice@example>".to_vec());
    assert_eq!(cs.timestamp, b"123".to_vec());
    assert_eq!(cs.utcoffset, b"0".to_vec());
    assert_eq!(cs.extra, Some(b"branch:dev".to_vec()));
    assert_eq!(cs.files, Some(b"f1\nf2".to_vec()));
    assert_eq!(cs.body, b"body\nwith lines".to_vec());
    // no blank line: not a changeset
    assert!(RawHgChangeset(b"no blank line".to_vec()).parse().is_none());
}

#[test]
fn node_hash_matches_reference_digest() {
    let p1 = HgChangesetId::from_raw_bytes([9; 20]);
    let p2 = HgChangesetId::from_raw_bytes([2; 20]);
    let parents = vec![p1, p2];
    let data = b"payload";
    let ours = hg_node_hash(&parents, data);
    // the reference computation sorts the parents ascending
    let mut h = Sha1::new();
    h.update([2u8; 20]);
    h.update([9u8; 20]);
    h.update(data);
    let expected: [u8; 20] = h.finalize().into();
    assert_eq!(ours.raw, expected);
}
