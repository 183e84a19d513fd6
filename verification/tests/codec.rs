use hg_store::metadata::{GitChangesetMetadata, RawGitChangesetMetadata};
use hg_store::oid::{HgChangesetId, HgManifestId};

fn cs_id(fill: u8) -> HgChangesetId {
    HgChangesetId::from_raw_bytes([fill; 20])
}

fn mf_id(fill: u8) -> HgManifestId {
    HgManifestId::from_raw_bytes([fill; 20])
}

#[test]
fn serialize_exact_bytes() {
    let md = GitChangesetMetadata {
        changeset_id: cs_id(0xab),
        manifest_id: mf_id(0x01),
        author: Some(b"Alice <alice@example>".to_vec()),
        extra: Some(b"branch:default".to_vec()),
        files: Some(b"a\0b/c".to_vec()),
        patch: None,
    };
    let out = md.serialize();
    let expected = format!(
        "changeset {}\nmanifest {}\nauthor Alice <alice@example>\nextra branch:default\nfiles a\0b/c",
        "ab".repeat(20),
        "01".repeat(20),
    );
    assert_eq!(out, expected.into_bytes());
}

#[test]
fn serialize_omits_null_manifest() {
    let md = GitChangesetMetadata {
        changeset_id: cs_id(0x22),
        manifest_id: HgManifestId::null(),
        author: None,
        extra: None,
        files: None,
        patch: None,
    };
    let out = md.serialize();
    let expected = format!("changeset {}", "22".repeat(20));
    assert_eq!(out, expected.into_bytes());
}

#[test]
fn parse_serialize_roundtrip() {
    // the round-trip holds for any record whose fields carry no newline
    let records = vec![
        GitChangesetMetadata {
            changeset_id: cs_id(0xab),
            manifest_id: mf_id(0x01),
            author: Some(b"Alice <alice@example>".to_vec()),
            extra: Some(b"branch:default\0rebase_source:abc".to_vec()),
            files: Some(b"a\0b/c".to_vec()),
            patch: Some(b"0,2,%0A".to_vec()),
        },
        GitChangesetMetadata {
            changeset_id: cs_id(0x07),
            manifest_id: HgManifestId::null(),
            author: None,
            extra: None,
            files: None,
            patch: None,
        },
    ];
    for md in records {
        let serialized = md.serialize();
        let parsed = RawGitChangesetMetadata::from_bytes(serialized).parse().unwrap();
        assert_eq!(parsed.changeset_id.raw, md.changeset_id.raw);
        assert_eq!(parsed.manifest_id.raw, md.manifest_id.raw);
        assert_eq!(parsed.author, md.author);
        assert_eq!(parsed.extra, md.extra);
        assert_eq!(parsed.files, md.files);
        assert_eq!(parsed.patch, md.patch);
    }
}

#[test]
fn parse_rejects_malformed() {
    // unknown key
    let bytes = format!("changeset {}\nbogus x", "ab".repeat(20));
    assert!(RawGitChangesetMetadata::from_bytes(bytes.into_bytes()).parse().is_none());
    // missing changeset line
    let bytes = format!("manifest {}", "ab".repeat(20));
    assert!(RawGitChangesetMetadata::from_bytes(bytes.into_bytes()).parse().is_none());
    // bad hex
    let bytes = format!("changeset {}zz", "ab".repeat(19));
    assert!(RawGitChangesetMetadata::from_bytes(bytes.into_bytes()).parse().is_none());
    // line without a space
    assert!(RawGitChangesetMetadata::from_bytes(b"changeset".to_vec()).parse().is_none());
}

#[test]
fn parse_defaults_manifest_to_null() {
    let bytes = format!("changeset {}\nauthor x", "cd".repeat(20));
    let parsed = RawGitChangesetMetadata::from_bytes(bytes.into_bytes()).parse().unwrap();
    assert_eq!(parsed.manifest_id.raw, [0u8; 20]);
    assert_eq!(parsed.author, Some(b"x".to_vec()));
}

#[test]
fn id_hex_roundtrip() {
    let id = cs_id(0x5e);
    let hex = id.to_hex();
    assert_eq!(hex, "5e".repeat(20).into_bytes());
    let back = HgChangesetId::from_bytes(&hex).unwrap();
    assert_eq!(back.raw, id.raw);
    // upper-case digits parse too
    let upper = "5E".repeat(20).into_bytes();
    assert_eq!(HgChangesetId::from_bytes(&upper).unwrap().raw, id.raw);
    assert!(HgChangesetId::from_bytes(b"xyz").is_none());
}
