use hg_store::heads::ChangesetHeads;
use hg_store::import::ImportError;
use hg_store::oid::{BlobId, HgChangesetId};
use hg_store::store::{broken_ref_bytes, bundle_tree_bytes, normalize_files, parse_head_lines};

#[test]
fn head_lines_parse_and_rebuild_heads() {
    let mut body = Vec::new();
    body.extend_from_slice("aa".repeat(20).as_bytes());
    body.extend_from_slice(b" default\n");
    body.extend_from_slice("bb".repeat(20).as_bytes());
    body.extend_from_slice(b" feature");
    let list = parse_head_lines(&body).expect("two well-formed lines");
    assert_eq!(list.len(), 2);
    assert_eq!(list[0].0.raw, [0xAA; 20]);
    assert_eq!(list[0].1, b"default".to_vec());
    assert_eq!(list[1].0.raw, [0xBB; 20]);
    assert_eq!(list[1].1, b"feature".to_vec());
    let heads = ChangesetHeads::from_head_records(&list).expect("distinct records");
    let bh = heads.branch_heads();
    assert_eq!(bh.len(), 2);
    assert_eq!(bh[0].0.raw, [0xAA; 20]);
    assert_eq!(bh[0].1, b"default".to_vec());
    assert_eq!(bh[1].0.raw, [0xBB; 20]);
    assert_eq!(bh[1].1, b"feature".to_vec());
    let hs = heads.heads();
    assert_eq!(hs.len(), 2);
}

#[test]
fn head_line_without_space_is_malformed() {
    let body = "aa".repeat(20).into_bytes();
    assert!(parse_head_lines(&body).is_none());
}

#[test]
fn head_line_with_bad_hex_is_malformed() {
    let mut body = Vec::new();
    body.extend_from_slice("zz".repeat(20).as_bytes());
    body.extend_from_slice(b" default");
    assert!(parse_head_lines(&body).is_none());
}

#[test]
fn duplicate_head_records_are_refused() {
    let a = HgChangesetId::from_raw_bytes([0xAA; 20]);
    let list = vec![(a, b"one".to_vec()), (a, b"two".to_vec())];
    assert!(ChangesetHeads::from_head_records(&list).is_none());
}

#[test]
fn import_error_messages_name_the_id() {
    let id = HgChangesetId::from_raw_bytes([0xAB; 20]);
    let hex = "ab".repeat(20);
    assert_eq!(
        ImportError::MalformedChunk(id).message(),
        format!("malformed {hex}").into_bytes()
    );
    assert_eq!(
        ImportError::MissingReference(id).message(),
        format!("missing {hex}").into_bytes()
    );
    assert_eq!(
        ImportError::AmbiguousGraft(id, Vec::new()).message(),
        format!("ambiguous {hex}").into_bytes()
    );
}

#[test]
fn files_list_is_recorded_only_when_nonempty() {
    assert_eq!(normalize_files(None), None);
    assert_eq!(normalize_files(Some(Vec::new())), None);
    assert_eq!(normalize_files(Some(b"a\nb".to_vec())), Some(b"a\nb".to_vec()));
}

#[test]
fn bundle_tree_entry_bytes() {
    assert_eq!(bundle_tree_bytes(None), Vec::<u8>::new());
    let blob = BlobId::from_raw_bytes([0x42; 20]);
    let mut expected = b"100644 bundle\0".to_vec();
    expected.extend_from_slice(&[0x42; 20]);
    assert_eq!(bundle_tree_bytes(Some(&blob)), expected);
}

#[test]
fn broken_marker_ref_name() {
    assert_eq!(broken_ref_bytes(), b"refs/cinnabar/broken".to_vec());
}
