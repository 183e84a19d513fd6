use hg_store::authorship::{committer_git_line, git_author_line, hg_authorship, hg_committer_line};

#[test]
fn zone_to_west_seconds() {
    // an eastern zone becomes a negative seconds-west offset
    let (author, ts, utc) = hg_authorship(b"Alice <alice@example> 1700000000 +0100");
    assert_eq!(author, b"Alice <alice@example>".to_vec());
    assert_eq!(ts, b"1700000000".to_vec());
    assert_eq!(utc, b"-3600".to_vec());
    // a western zone becomes a positive one
    let (_, _, utc) = hg_authorship(b"Alice <alice@example> 1700000000 -0630");
    assert_eq!(utc, b"23400".to_vec());
    // the zero zone
    let (_, _, utc) = hg_authorship(b"Alice <alice@example> 1700000000 +0000");
    assert_eq!(utc, b"0".to_vec());
    // a malformed zone counts as zero
    let (_, _, utc) = hg_authorship(b"Alice <alice@example> 1700000000 nowhere");
    assert_eq!(utc, b"0".to_vec());
}

#[test]
fn lines_without_two_fields_stand_for_themselves() {
    let (author, ts, utc) = hg_authorship(b"lonely");
    assert_eq!(author, b"lonely".to_vec());
    assert_eq!(ts, b"0".to_vec());
    assert_eq!(utc, b"0".to_vec());
}

#[test]
fn committer_line_is_author_timestamp_offset() {
    let line = hg_committer_line(b"Bob <bob@example> 12345 -0200");
    assert_eq!(line, b"Bob <bob@example> 12345 7200".to_vec());
}

#[test]
fn git_line_from_foreign_triple() {
    let line = git_author_line(b"Alice <alice@example>", b"1700000000", b"-3600");
    assert_eq!(line, b"Alice <alice@example> 1700000000 +0100".to_vec());
    let line = git_author_line(b"Alice <alice@example>", b"1700000000", b"23400");
    assert_eq!(line, b"Alice <alice@example> 1700000000 -0630".to_vec());
    // no email part: an empty address
    let line = git_author_line(b"anonymous", b"7", b"0");
    assert_eq!(line, b"anonymous <> 7 +0000".to_vec());
    // a committer entry parsed back to the native form
    let line = committer_git_line(b"Bob <bob@example> 12345 7200");
    assert_eq!(line, b"Bob <bob@example> 12345 -0200".to_vec());
}
