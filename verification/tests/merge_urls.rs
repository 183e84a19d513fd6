use hg_store::merge::{
    branches_for_url, choose_refname, resolve_replace_refs, validate_metadata_commit,
};
use hg_store::oid::CommitId;
use url::{Host, Url};

fn branches(u: &str) -> Vec<Vec<u8>> {
    let url = Url::parse(u).unwrap();
    let segments: Vec<Vec<u8>> = url
        .path_segments()
        .unwrap()
        .map(|s| s.as_bytes().to_vec())
        .collect();
    let host: Option<Vec<u8>> = match url.host() {
        Some(Host::Domain(h)) => Some(h.as_bytes().to_vec()),
        _ => None,
    };
    branches_for_url(host.as_ref(), &segments)
}

#[test]
fn test_branches_for_url() {
    assert_eq!(
        branches("https://server/"),
        vec![b"server".to_vec(), b"metadata".to_vec()]
    );
    assert_eq!(
        branches("https://server:443/"),
        vec![b"server".to_vec(), b"metadata".to_vec()]
    );
    assert_eq!(
        branches("https://server:443/repo"),
        vec![
            b"repo".to_vec(),
            b"server/repo".to_vec(),
            b"metadata".to_vec()
        ]
    );
    assert_eq!(
        branches("https://server:443/dir_a/repo"),
        vec![
            b"repo".to_vec(),
            b"dir_a/repo".to_vec(),
            b"server/dir_a/repo".to_vec(),
            b"metadata".to_vec()
        ]
    );
    assert_eq!(
        branches("https://server:443/dir_a/dir_b/repo"),
        vec![
            b"repo".to_vec(),
            b"dir_b/repo".to_vec(),
            b"dir_a/dir_b/repo".to_vec(),
            b"server/dir_a/dir_b/repo".to_vec(),
            b"metadata".to_vec()
        ]
    );
}

#[test]
fn refname_choice_prefers_plain_then_namespaced() {
    let branches = vec![b"repo".to_vec(), b"metadata".to_vec()];
    let remote = vec![b"refs/heads/main".to_vec(), b"refs/cinnabar/repo".to_vec()];
    assert_eq!(
        choose_refname(&branches, &remote),
        Some(b"refs/cinnabar/repo".to_vec())
    );
    let remote2 = vec![b"metadata".to_vec()];
    assert_eq!(choose_refname(&branches, &remote2), Some(b"metadata".to_vec()));
    let remote3 = vec![b"refs/heads/other".to_vec()];
    assert_eq!(choose_refname(&branches, &remote3), None);
}

#[test]
fn metadata_shape_validation() {
    assert!(validate_metadata_commit(
        b" <cinnabar@git> 0 +0000",
        b"files-meta unified-manifests-v2"
    ));
    assert!(validate_metadata_commit(
        b" <cinnabar@git> 0 +0000",
        b"unified-manifests-v2\nfiles-meta"
    ));
    // wrong identity
    assert!(!validate_metadata_commit(
        b"someone <else@example> 0 +0000",
        b"files-meta unified-manifests-v2"
    ));
    // unexpected flag words
    assert!(!validate_metadata_commit(
        b" <cinnabar@git> 0 +0000",
        b"files-meta"
    ));
    assert!(!validate_metadata_commit(
        b" <cinnabar@git> 0 +0000",
        b"files-meta unified-manifests-v2 extra-flag"
    ));
}

#[test]
fn replace_refs_resolve_against_advertised() {
    let cid = |f: u8| CommitId::from_raw_bytes([f; 20]);
    let advertised = vec![
        (b"refs/heads/main".to_vec(), cid(1)),
        (b"refs/heads/other".to_vec(), cid(2)),
    ];
    let entries = vec![
        (b"first".to_vec(), cid(2)),
        (b"second".to_vec(), cid(1)),
    ];
    let resolved = resolve_replace_refs(&entries, &advertised).expect("all advertised");
    assert_eq!(
        resolved,
        vec![
            (
                b"refs/heads/other".to_vec(),
                b"refs/cinnabar/replace/first".to_vec()
            ),
            (
                b"refs/heads/main".to_vec(),
                b"refs/cinnabar/replace/second".to_vec()
            ),
        ]
    );
}

#[test]
fn replace_refs_report_missing_commits() {
    let cid = |f: u8| CommitId::from_raw_bytes([f; 20]);
    let advertised = vec![(b"refs/heads/main".to_vec(), cid(1))];
    let entries = vec![
        (b"known".to_vec(), cid(1)),
        (b"lost".to_vec(), cid(9)),
        (b"gone".to_vec(), cid(8)),
    ];
    let missing = resolve_replace_refs(&entries, &advertised).unwrap_err();
    assert_eq!(missing.len(), 2);
    assert_eq!(missing[0].raw, [9; 20]);
    assert_eq!(missing[1].raw, [8; 20]);
}
