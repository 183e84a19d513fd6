use hg_store::oid::HgChangesetId;
use hg_store::tags::TagSet;

fn hex(fill: u8) -> String {
    format!("{:02x}", fill).repeat(20)
}

#[test]
fn from_buf_parses_and_tracks_history() {
    let buf = format!("{} v1\n{} v2\n{} v1\n", hex(1), hex(2), hex(3));
    let tags = TagSet::from_buf(buf.as_bytes()).unwrap();
    let pairs = tags.iter();
    assert_eq!(pairs.len(), 2);
    assert_eq!(pairs[0].0, b"v1".to_vec());
    assert_eq!(pairs[0].1.raw, [3u8; 20]);
    assert_eq!(pairs[1].0, b"v2".to_vec());
    assert_eq!(pairs[1].1.raw, [2u8; 20]);
}

#[test]
fn from_buf_trims_and_skips_empty_lines() {
    let buf = format!("\n{} release \t\n\n", hex(7));
    let tags = TagSet::from_buf(buf.as_bytes()).unwrap();
    let pairs = tags.iter();
    assert_eq!(pairs.len(), 1);
    assert_eq!(pairs[0].0, b"release".to_vec());
}

#[test]
fn from_buf_rejects_malformed() {
    assert!(TagSet::from_buf(b"nospace").is_none());
    assert!(TagSet::from_buf(b"zz tag").is_none());
}

#[test]
fn iter_hides_null_nodes() {
    let buf = format!("{} gone\n{} kept\n", "0".repeat(40), hex(5));
    let tags = TagSet::from_buf(buf.as_bytes()).unwrap();
    let pairs = tags.iter();
    assert_eq!(pairs.len(), 1);
    assert_eq!(pairs[0].0, b"kept".to_vec());
}

#[test]
fn merge_converges() {
    // b's history subsumes a's: merging a second time changes nothing
    let a_buf = format!("{} v1\n{} v2\n", hex(1), hex(4));
    let b_buf = format!("{} v1\n{} v1\n{} v2\n{} v3\n", hex(1), hex(2), hex(4), hex(9));
    let mut c = TagSet::from_buf(a_buf.as_bytes()).unwrap();
    c.merge(TagSet::from_buf(b_buf.as_bytes()).unwrap());
    // rebuild c to merge again: merge(a, merge(a, b))
    let mut d = TagSet::from_buf(a_buf.as_bytes()).unwrap();
    let mut c2 = TagSet::from_buf(a_buf.as_bytes()).unwrap();
    c2.merge(TagSet::from_buf(b_buf.as_bytes()).unwrap());
    d.merge(c2);
    assert!(d == c);
    // and the merged set took the incoming nodes
    let pairs = c.iter();
    assert_eq!(pairs[0].0, b"v1".to_vec());
    assert_eq!(pairs[0].1.raw, [2u8; 20]);
    assert_eq!(pairs[2].0, b"v3".to_vec());
    assert_eq!(pairs[2].1.raw, [9u8; 20]);
}

#[test]
fn merge_keeps_superior_local_node() {
    // the local side saw the incoming node already and has the longer
    // history: it keeps its own node
    let local = format!("{} t\n{} t\n{} t\n", hex(1), hex(2), hex(3));
    let incoming = format!("{} t\n{} t\n", hex(1), hex(2));
    let mut merged = TagSet::from_buf(local.as_bytes()).unwrap();
    merged.merge(TagSet::from_buf(incoming.as_bytes()).unwrap());
    let pairs = merged.iter();
    assert_eq!(pairs.len(), 1);
    assert_eq!(pairs[0].1.raw, [3u8; 20]);
}

#[test]
fn merge_into_empty_adopts_incoming() {
    let incoming = format!("{} t\n", hex(6));
    let mut merged = TagSet::new();
    merged.merge(TagSet::from_buf(incoming.as_bytes()).unwrap());
    let pairs = merged.iter();
    assert_eq!(pairs.len(), 1);
    assert_eq!(pairs[0].1.raw, [6u8; 20]);
    let different = {
        let buf = format!("{} t\n", hex(8));
        let mut m = TagSet::new();
        m.merge(TagSet::from_buf(buf.as_bytes()).unwrap());
        m
    };
    let _eq_check: HgChangesetId = pairs[0].1;
    assert!(!(merged == different));
}
