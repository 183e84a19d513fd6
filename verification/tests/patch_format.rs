use hg_store::patch::{apply_hunks, byte_diff, GitChangesetPatch, PatchInfo};

#[test]
fn encode_exact_bytes() {
    let hunks = vec![
        PatchInfo { start: 0, end: 2, data: b"ab".to_vec() },
        PatchInfo { start: 5, end: 5, data: b" /".to_vec() },
    ];
    let encoded = GitChangesetPatch::from_patch_info(&hunks);
    assert_eq!(encoded, b"0,2,ab\05,5,%20%2F".to_vec());
}

#[test]
fn decode_recovers_hunks() {
    let patch = GitChangesetPatch::from_bytes(b"0,2,ab\05,5,%20%2F".to_vec());
    let hunks = patch.iter().unwrap();
    assert_eq!(hunks.len(), 2);
    assert_eq!((hunks[0].start, hunks[0].end, hunks[0].data.clone()), (0, 2, b"ab".to_vec()));
    assert_eq!((hunks[1].start, hunks[1].end, hunks[1].data.clone()), (5, 5, b" /".to_vec()));
    // lower-case escapes decode too, and stray percents pass through
    let patch = GitChangesetPatch::from_bytes(b"1,1,%2f%".to_vec());
    let hunks = patch.iter().unwrap();
    assert_eq!(hunks[0].data, b"/%".to_vec());
    // a missing comma fails the parse
    assert!(GitChangesetPatch::from_bytes(b"12".to_vec()).iter().is_none());
}

#[test]
fn apply_replaces_ranges() {
    let patch = GitChangesetPatch::from_bytes(b"2,4,XY\06,6,Z".to_vec());
    let out = patch.apply(b"abcdefgh").unwrap();
    assert_eq!(out, b"abXYefZgh".to_vec());
}

#[test]
fn apply_rejects_overlap_and_overrun() {
    // start before the previous end
    let hunks = vec![
        PatchInfo { start: 2, end: 4, data: b"X".to_vec() },
        PatchInfo { start: 3, end: 5, data: b"Y".to_vec() },
    ];
    assert!(apply_hunks(b"abcdefgh", &hunks).is_none());
    // start beyond the reference
    let hunks = vec![PatchInfo { start: 9, end: 9, data: b"X".to_vec() }];
    assert!(apply_hunks(b"abc", &hunks).is_none());
    // final end beyond the reference
    let hunks = vec![PatchInfo { start: 1, end: 7, data: b"X".to_vec() }];
    assert!(apply_hunks(b"abc", &hunks).is_none());
}

#[test]
fn diff_then_apply_is_identity() {
    let cases: Vec<(&[u8], &[u8])> = vec![
        (b"hello world", b"hello brave world"),
        (b"", b"anything"),
        (b"same", b"same"),
        (b"prefix mid suffix", b"prefix other suffix"),
        (b"abc", b""),
    ];
    for (a, b) in cases {
        let hunks = byte_diff(a, b);
        let out = apply_hunks(a, &hunks).unwrap();
        assert_eq!(out, b.to_vec(), "diff of {:?} -> {:?}", a, b);
        if a == b {
            assert!(hunks.is_empty());
        }
    }
}

#[test]
fn chunk_chain_matches_single_net_edit() {
    // reference -> mid -> final through two chunks, against one chunk holding
    // the net edits: byte-identical output
    let reference = b"the quick brown fox".to_vec();
    let mid = b"the quick red fox".to_vec();
    let fin = b"a quick red wolf".to_vec();
    let h1 = byte_diff(&reference, &mid);
    let h2 = byte_diff(&mid, &fin);
    let step1 = apply_hunks(&reference, &h1).unwrap();
    let step2 = apply_hunks(&step1, &h2).unwrap();
    let net = byte_diff(&reference, &fin);
    let direct = apply_hunks(&reference, &net).unwrap();
    assert_eq!(step2, direct);
    assert_eq!(direct, fin);
}
