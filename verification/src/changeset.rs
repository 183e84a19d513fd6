//! The changeset reconstruction engine: regenerating the exact foreign
//! changeset byte stream from a native commit and its metadata side-record,
//! and deriving the minimal side-record from a native commit and the original
//! bytes.

use vstd::prelude::*;

use crate::authorship::{
    spec_hg_author, spec_hg_committer_line, spec_hg_timestamp, spec_hg_utcoffset,
};
use crate::bytes::{append_bytes, spec_find_byte, spec_hex, spec_lex_le, spec_split, views};
use crate::extra::{
    spec_dump, spec_extra_buf_wf, spec_extra_from, spec_insert, spec_lookup, ChangesetExtra,
};
use crate::metadata::{opt_bytes, GitChangesetMetadata};
use crate::oid::{spec_null_oid, spec_parse_oid, CommitId, HgChangesetId, HgManifestId, TreeId};
use crate::patch::{spec_apply, spec_parse_patch};

verus! {

/// The twenty-byte digest the foreign system hashes its objects with.
pub uninterp spec fn sha1_of(data: Seq<u8>) -> Seq<u8>;

/// Relies on `sha1::Sha1` (through `digest::Digest::digest`): the SHA-1
/// digest of the input bytes, a pure function of them.
#[verifier::external_body]
pub(crate) fn sha1_digest(data: &[u8]) -> (r: [u8; 20])
    ensures
        r@ == sha1_of(data@),
{
    <sha1::Sha1 as sha1::Digest>::digest(data).into()
}

/// A native commit, as the object store parses it: the raw author and
/// committer lines, the tree, the parents, and the free-form body.
#[derive(Debug)]
pub struct Commit {
    pub tree: TreeId,
    pub parents: Vec<CommitId>,
    pub author: Vec<u8>,
    pub committer: Vec<u8>,
    pub body: Vec<u8>,
}

impl Commit {
    /// The raw author line.
    pub fn author(&self) -> (r: &Vec<u8>)
        ensures
            r@ == self.author@,
    {
        &self.author
    }

    /// The raw committer line.
    pub fn committer(&self) -> (r: &Vec<u8>)
        ensures
            r@ == self.committer@,
    {
        &self.committer
    }

    /// The free-form body.
    pub fn body(&self) -> (r: &Vec<u8>)
        ensures
            r@ == self.body@,
    {
        &self.body
    }

    /// The tree.
    pub fn tree(&self) -> (r: &TreeId)
        ensures
            r@ == self.tree@,
    {
        &self.tree
    }

    /// The parent commits.
    pub fn parents(&self) -> (r: &Vec<CommitId>)
        ensures
            r@ == self.parents@,
    {
        &self.parents
    }
}

/// The raw bytes of a foreign changeset.
#[derive(Debug)]
pub struct RawHgChangeset(pub Vec<u8>);

impl View for RawHgChangeset {
    type V = Seq<u8>;

    open spec fn view(&self) -> Seq<u8> {
        self.0@
    }
}

/// The parsed fields of a foreign changeset.
pub struct ChangesetFields {
    pub manifest: Seq<u8>,
    pub author: Seq<u8>,
    pub timestamp: Seq<u8>,
    pub utcoffset: Seq<u8>,
    pub extra: Option<Seq<u8>>,
    pub files: Option<Seq<u8>>,
    pub body: Seq<u8>,
}

/// The position of the first blank line (two consecutive newlines).
pub open spec fn spec_find_2nl(s: Seq<u8>, i: int) -> Option<int>
    decreases s.len() - i,
{
    if i < 0 || i + 1 >= s.len() {
        None
    } else if s[i] == 0x0A && s[i + 1] == 0x0A {
        Some(i)
    } else {
        spec_find_2nl(s, i + 1)
    }
}

/// What a foreign changeset's bytes parse to: a manifest-id line, an author
/// line, a `timestamp utcoffset [extra]` line, optional file-path lines, a
/// blank line, and the free-form body.
pub open spec fn spec_parse_changeset(bytes: Seq<u8>) -> Option<ChangesetFields> {
    match spec_find_2nl(bytes, 0) {
        None => None,
        Some(blank) => {
            let header = bytes.take(blank);
            let body = bytes.skip(blank + 2);
            match spec_find_byte(header, 0x0A, 0) {
                None => None,
                Some(nl1) => match spec_find_byte(header, 0x0A, nl1 + 1) {
                    None => None,
                    Some(nl2) => {
                        let end3 = match spec_find_byte(header, 0x0A, nl2 + 1) {
                            Some(nl3) => nl3,
                            None => header.len() as int,
                        };
                        let files = match spec_find_byte(header, 0x0A, nl2 + 1) {
                            Some(nl3) => Some(header.skip(nl3 + 1)),
                            None => None,
                        };
                        let dl = header.subrange(nl2 + 1, end3);
                        match spec_parse_oid(header.take(nl1)) {
                            None => None,
                            Some(mid) => match spec_find_byte(dl, 0x20, 0) {
                                None => None,
                                Some(sp1) => {
                                    let (utc, extra) = match spec_find_byte(dl, 0x20, sp1 + 1) {
                                        Some(sp2) => (
                                            dl.subrange(sp1 + 1, sp2),
                                            Some(dl.skip(sp2 + 1)),
                                        ),
                                        None => (dl.skip(sp1 + 1), None),
                                    };
                                    Some(
                                        ChangesetFields {
                                            manifest: mid,
                                            author: header.subrange(nl1 + 1, nl2),
                                            timestamp: dl.take(sp1),
                                            utcoffset: utc,
                                            extra,
                                            files,
                                            body,
                                        },
                                    )
                                },
                            },
                        }
                    },
                },
            }
        },
    }
}

/// A parsed foreign changeset.
#[derive(Debug)]
pub struct HgChangeset {
    pub manifest: HgManifestId,
    pub author: Vec<u8>,
    pub timestamp: Vec<u8>,
    pub utcoffset: Vec<u8>,
    pub extra: Option<Vec<u8>>,
    pub files: Option<Vec<u8>>,
    pub body: Vec<u8>,
}

impl HgChangeset {
    /// The manifest the changeset refers to.
    pub fn manifest(&self) -> (r: &HgManifestId)
        ensures
            r@ == self.manifest@,
    {
        &self.manifest
    }

    /// The author.
    pub fn author(&self) -> (r: &Vec<u8>)
        ensures
            r@ == self.author@,
    {
        &self.author
    }

    /// The timestamp field.
    pub fn timestamp(&self) -> (r: &Vec<u8>)
        ensures
            r@ == self.timestamp@,
    {
        &self.timestamp
    }

    /// The utcoffset field.
    pub fn utcoffset(&self) -> (r: &Vec<u8>)
        ensures
            r@ == self.utcoffset@,
    {
        &self.utcoffset
    }

    /// The free-form body.
    pub fn body(&self) -> (r: &Vec<u8>)
        ensures
            r@ == self.body@,
    {
        &self.body
    }

    /// The extra dictionary, parsed.
    pub fn extra(&self) -> (r: Option<ChangesetExtra>)
        requires
            match self.extra {
                Some(e) => spec_extra_buf_wf(e@),
                None => true,
            },
        ensures
            match r {
                Some(e) => opt_bytes(self.extra) matches Some(b) && e@ == spec_extra_from(b)
                    && e.well_formed(),
                None => self.extra is None,
            },
    {
        match &self.extra {
            Some(e) => Some(ChangesetExtra::from(e.as_slice())),
            None => None,
        }
    }

    /// The file paths, one per line, if the changeset lists any.
    pub fn files(&self) -> (r: Option<Vec<Vec<u8>>>)
        ensures
            match r {
                Some(fs) => opt_bytes(self.files) matches Some(b) && views(fs@) == spec_split(
                    b,
                    0x0A,
                ),
                None => self.files is None,
            },
    {
        match &self.files {
            Some(f) => Some(crate::bytes::split_byte(f.as_slice(), 0x0A)),
            None => None,
        }
    }
}

impl RawHgChangeset {
    /// Parse the changeset's header and body.
    pub fn parse(&self) -> (r: Option<HgChangeset>)
        ensures
            match r {
                Some(cs) => spec_parse_changeset(self@) matches Some(f) && {
                    &&& cs.manifest@ == f.manifest
                    &&& cs.author@ == f.author
                    &&& cs.timestamp@ == f.timestamp
                    &&& cs.utcoffset@ == f.utcoffset
                    &&& opt_bytes(cs.extra) == f.extra
                    &&& opt_bytes(cs.files) == f.files
                    &&& cs.body@ == f.body
                },
                None => spec_parse_changeset(self@) is None,
            },
    {
        let bytes = self.0.as_slice();
        let n = bytes.len();
        let blank = match find_2nl(bytes) {
            Some(i) => i,
            None => {
                return None;
            },
        };
        let header = vstd::slice::slice_subrange(bytes, 0, blank);
        let body = vstd::slice::slice_to_vec(vstd::slice::slice_subrange(bytes, blank + 2, n));
        proof {
            assert(header@ =~= self@.take(blank as int));
            assert(body@ =~= self@.skip(blank as int + 2));
        }
        let hn = header.len();
        let nl1 = match crate::bytes::find_byte(header, 0x0A) {
            Some(i) => i,
            None => {
                return None;
            },
        };
        proof {
            crate::bytes::lemma_find_byte_props(header@, 0x0A, 0);
        }
        let rest1 = vstd::slice::slice_subrange(header, nl1 + 1, hn);
        let nl2 = match crate::bytes::find_byte(rest1, 0x0A) {
            Some(i) => {
                proof {
                    crate::bytes::lemma_find_byte_props(rest1@, 0x0A, 0);
                    lemma_find_skip_pub(header@, 0x0A, nl1 as int + 1);
                }
                nl1 + 1 + i
            },
            None => {
                proof {
                    crate::bytes::lemma_find_byte_props(rest1@, 0x0A, 0);
                    lemma_find_skip_pub(header@, 0x0A, nl1 as int + 1);
                }
                return None;
            },
        };
        let rest2 = vstd::slice::slice_subrange(header, nl2 + 1, hn);
        let (end3, files): (usize, Option<Vec<u8>>) = match crate::bytes::find_byte(
            rest2,
            0x0A,
        ) {
            Some(i) => {
                proof {
                    crate::bytes::lemma_find_byte_props(rest2@, 0x0A, 0);
                    lemma_find_skip_pub(header@, 0x0A, nl2 as int + 1);
                }
                let nl3 = nl2 + 1 + i;
                (
                    nl3,
                    Some(
                        vstd::slice::slice_to_vec(vstd::slice::slice_subrange(
                            header,
                            nl3 + 1,
                            hn,
                        )),
                    ),
                )
            },
            None => {
                proof {
                    crate::bytes::lemma_find_byte_props(rest2@, 0x0A, 0);
                    lemma_find_skip_pub(header@, 0x0A, nl2 as int + 1);
                }
                (hn, None)
            },
        };
        let manifest = match HgManifestId::from_bytes(vstd::slice::slice_subrange(
            header,
            0,
            nl1,
        )) {
            Some(id) => id,
            None => {
                proof {
                    assert(header@.subrange(0, nl1 as int) =~= header@.take(nl1 as int));
                }
                return None;
            },
        };
        let author = vstd::slice::slice_to_vec(vstd::slice::slice_subrange(
            header,
            nl1 + 1,
            nl2,
        ));
        let dl = vstd::slice::slice_subrange(header, nl2 + 1, end3);
        let dn = dl.len();
        let sp1 = match crate::bytes::find_byte(dl, 0x20) {
            Some(i) => i,
            None => {
                proof {
                    assert(header@.subrange(0, nl1 as int) =~= header@.take(nl1 as int));
                }
                return None;
            },
        };
        proof {
            crate::bytes::lemma_find_byte_props(dl@, 0x20, 0);
        }
        let timestamp = vstd::slice::slice_to_vec(vstd::slice::slice_subrange(dl, 0, sp1));
        let dtail = vstd::slice::slice_subrange(dl, sp1 + 1, dn);
        let (utcoffset, extra): (Vec<u8>, Option<Vec<u8>>) = match crate::bytes::find_byte(
            dtail,
            0x20,
        ) {
            Some(i) => {
                proof {
                    crate::bytes::lemma_find_byte_props(dtail@, 0x20, 0);
                    lemma_find_skip_pub(dl@, 0x20, sp1 as int + 1);
                }
                let sp2 = sp1 + 1 + i;
                (
                    vstd::slice::slice_to_vec(vstd::slice::slice_subrange(dl, sp1 + 1, sp2)),
                    Some(
                        vstd::slice::slice_to_vec(vstd::slice::slice_subrange(
                            dl,
                            sp2 + 1,
                            dn,
                        )),
                    ),
                )
            },
            None => {
                proof {
                    crate::bytes::lemma_find_byte_props(dtail@, 0x20, 0);
                    lemma_find_skip_pub(dl@, 0x20, sp1 as int + 1);
                }
                (
                    vstd::slice::slice_to_vec(vstd::slice::slice_subrange(dl, sp1 + 1, dn)),
                    None,
                )
            },
        };
        proof {
            let h = header@;
            assert(h.subrange(0, nl1 as int) =~= h.take(nl1 as int));
            assert(h.subrange(nl2 as int + 1, end3 as int) == dl@);
            assert(dl@.subrange(0, sp1 as int) =~= dl@.take(sp1 as int));
            match spec_find_byte(dl@, 0x20, sp1 as int + 1) {
                Some(sp2) => {
                    assert(dl@.subrange(sp2 + 1, dl@.len() as int) =~= dl@.skip(sp2 + 1));
                },
                None => {
                    assert(dl@.subrange(sp1 as int + 1, dl@.len() as int) =~= dl@.skip(
                        sp1 as int + 1,
                    ));
                },
            }
            match spec_find_byte(h, 0x0A, nl2 as int + 1) {
                Some(nl3) => {
                    assert(h.subrange(nl3 + 1, h.len() as int) =~= h.skip(nl3 + 1));
                },
                None => {
                },
            }
        }
        Some(HgChangeset { manifest, author, timestamp, utcoffset, extra, files, body })
    }
}

/// Searching from `from` equals searching the suffix from its start.
pub proof fn lemma_find_skip_pub(s: Seq<u8>, b: u8, from: int)
    requires
        0 <= from <= s.len(),
    ensures
        match spec_find_byte(s.skip(from), b, 0) {
            Some(c) => spec_find_byte(s, b, from) == Some(from + c),
            None => spec_find_byte(s, b, from) is None,
        },
{
    let tail = s.skip(from);
    crate::bytes::lemma_find_byte_props(tail, b, 0);
    crate::bytes::lemma_find_byte_props(s, b, from);
    match spec_find_byte(tail, b, 0) {
        Some(c) => {
            assert(tail[c] == s[from + c]);
            assert forall|j: int| from <= j < from + c implies s[j] != b by {
                assert(tail[j - from] == s[j]);
            }
            match spec_find_byte(s, b, from) {
                Some(i) => {
                    if i < from + c {
                        assert(tail[i - from] == s[i]);
                    }
                    if from + c < i {
                        assert(s[from + c] != b);
                    }
                },
                None => {
                    assert(s[from + c] != b);
                },
            }
        },
        None => {
            match spec_find_byte(s, b, from) {
                Some(i) => {
                    assert(tail[i - from] == s[i]);
                },
                None => {
                },
            }
        },
    }
}

/// Find the first blank line.
fn find_2nl(s: &[u8]) -> (r: Option<usize>)
    ensures
        match r {
            Some(i) => spec_find_2nl(s@, 0) == Some(i as int) && i + 2 <= s@.len(),
            None => spec_find_2nl(s@, 0) is None,
        },
{
    if s.len() < 2 {
        proof {
            lemma_find_2nl_props(s@, 0);
        }
        return None;
    }
    let n = s.len();
    let mut i: usize = 0;
    while i + 1 < n
        invariant
            0 <= i,
            n == s@.len(),
            i + 1 <= s@.len(),
            spec_find_2nl(s@, 0) == spec_find_2nl(s@, i as int),
        decreases s@.len() - i,
    {
        if s[i] == 0x0A && s[i + 1] == 0x0A {
            return Some(i);
        }
        i = i + 1;
    }
    None
}

proof fn lemma_find_2nl_props(s: Seq<u8>, i: int)
    requires
        0 <= i,
    ensures
        match spec_find_2nl(s, i) {
            Some(k) => i <= k && k + 2 <= s.len() && s[k] == 0x0A && s[k + 1] == 0x0A,
            None => true,
        },
    decreases s.len() - i,
{
    if i + 1 < s.len() && !(s[i] == 0x0A && s[i + 1] == 0x0A) {
        lemma_find_2nl_props(s, i + 1);
    }
}

/// Insert a path into a sorted run of paths.
pub open spec fn spec_insert_file(fs: Seq<Seq<u8>>, x: Seq<u8>) -> Seq<Seq<u8>>
    decreases fs.len(),
{
    if fs.len() == 0 {
        seq![x]
    } else if spec_lex_le(x, fs[0]) {
        seq![x] + fs
    } else {
        seq![fs[0]] + spec_insert_file(fs.drop_first(), x)
    }
}

/// The paths sorted lexicographically, by repeated insertion.
pub open spec fn spec_sort_files(fs: Seq<Seq<u8>>) -> Seq<Seq<u8>>
    decreases fs.len(),
{
    if fs.len() == 0 {
        Seq::empty()
    } else {
        spec_insert_file(spec_sort_files(fs.drop_last()), fs.last())
    }
}

/// Insert a path into its sorted position.
fn insert_file(fs: &mut Vec<Vec<u8>>, x: Vec<u8>)
    ensures
        views(final(fs)@) == spec_insert_file(views(old(fs)@), x@),
{
    let ghost fv = views(old(fs)@);
    let i = file_pos(fs, x.as_slice());
    proof {
        lemma_insert_file_at(fv, x@, i as int);
    }
    fs.insert(i, x);
    proof {
        assert(views(fs@) =~= fv.take(i as int) + spec_insert_file(fv.skip(i as int), x@));
    }
}

/// The sorted position for a path: past everything strictly smaller.
fn file_pos(fs: &Vec<Vec<u8>>, x: &[u8]) -> (r: usize)
    ensures
        r <= fs@.len(),
        forall|j: int| 0 <= j < r ==> !spec_lex_le(x@, #[trigger] views(fs@)[j]),
        r < fs@.len() ==> spec_lex_le(x@, views(fs@)[r as int]),
{
    let mut i: usize = 0;
    while i < fs.len()
        invariant
            0 <= i <= fs@.len(),
            forall|j: int| 0 <= j < i ==> !spec_lex_le(x@, #[trigger] views(fs@)[j]),
        decreases fs@.len() - i,
    {
        proof {
            assert(views(fs@)[i as int] == fs@[i as int]@);
        }
        if crate::bytes::lex_le(x, fs[i].as_slice()) {
            return i;
        }
        i = i + 1;
    }
    i
}

/// Inserting past a run of smaller paths acts on the tail.
proof fn lemma_insert_file_at(fs: Seq<Seq<u8>>, x: Seq<u8>, i: int)
    requires
        0 <= i <= fs.len(),
        forall|j: int| 0 <= j < i ==> !spec_lex_le(x, #[trigger] fs[j]),
    ensures
        spec_insert_file(fs, x) == fs.take(i) + spec_insert_file(fs.skip(i), x),
    decreases i,
{
    if i == 0 {
        assert(fs.take(0) =~= Seq::<Seq<u8>>::empty());
        assert(fs.skip(0) =~= fs);
        assert(spec_insert_file(fs, x) =~= fs.take(0) + spec_insert_file(fs.skip(0), x));
    } else {
        assert(!spec_lex_le(x, fs[0]));
        assert forall|j: int| 0 <= j < i - 1 implies !spec_lex_le(
            x,
            #[trigger] fs.drop_first()[j],
        ) by {
            assert(fs.drop_first()[j] == fs[j + 1]);
        }
        lemma_insert_file_at(fs.drop_first(), x, i - 1);
        assert(fs.drop_first().take(i - 1) =~= fs.take(i).drop_first());
        assert(fs.drop_first().skip(i - 1) =~= fs.skip(i));
        assert(spec_insert_file(fs, x) =~= fs.take(i) + spec_insert_file(fs.skip(i), x));
    }
}

/// The sorted file list is sorted indeed: every path is at or below its
/// successors in lexicographic order.
pub proof fn lemma_sort_files_sorted(fs: Seq<Seq<u8>>)
    ensures
        spec_sort_files(fs).len() == fs.len(),
        forall|i: int, j: int|
            0 <= i < j < spec_sort_files(fs).len() ==> spec_lex_le(
                #[trigger] spec_sort_files(fs)[i],
                #[trigger] spec_sort_files(fs)[j],
            ),
    decreases fs.len(),
{
    if fs.len() > 0 {
        lemma_sort_files_sorted(fs.drop_last());
        lemma_insert_file_sorted(spec_sort_files(fs.drop_last()), fs.last());
    }
}

/// Inserting into a sorted run keeps it sorted.
proof fn lemma_insert_file_sorted(fs: Seq<Seq<u8>>, x: Seq<u8>)
    requires
        forall|i: int, j: int|
            0 <= i < j < fs.len() ==> spec_lex_le(#[trigger] fs[i], #[trigger] fs[j]),
    ensures
        spec_insert_file(fs, x).len() == fs.len() + 1,
        forall|i: int, j: int|
            0 <= i < j < spec_insert_file(fs, x).len() ==> spec_lex_le(
                #[trigger] spec_insert_file(fs, x)[i],
                #[trigger] spec_insert_file(fs, x)[j],
            ),
    decreases fs.len(),
{
    let r = spec_insert_file(fs, x);
    if fs.len() == 0 {
    } else if spec_lex_le(x, fs[0]) {
        assert(r =~= seq![x] + fs);
        assert forall|i: int, j: int| 0 <= i < j < r.len() implies spec_lex_le(
            #[trigger] r[i],
            #[trigger] r[j],
        ) by {
            if i == 0 {
                assert(r[j] == fs[j - 1]);
                if j > 1 {
                    crate::bytes::lemma_lex_trans(x, fs[0], fs[j - 1]);
                } else {
                    assert(r[j] == fs[0]);
                }
            } else {
                assert(r[i] == fs[i - 1]);
                assert(r[j] == fs[j - 1]);
            }
        }
    } else {
        assert forall|i: int, j: int| 0 <= i < j < fs.drop_first().len() implies spec_lex_le(
            #[trigger] fs.drop_first()[i],
            #[trigger] fs.drop_first()[j],
        ) by {
            assert(fs.drop_first()[i] == fs[i + 1]);
            assert(fs.drop_first()[j] == fs[j + 1]);
        }
        lemma_insert_file_sorted(fs.drop_first(), x);
        let rt = spec_insert_file(fs.drop_first(), x);
        assert(r =~= seq![fs[0]] + rt);
        crate::bytes::lemma_lex_total(x, fs[0]);
        assert forall|i: int, j: int| 0 <= i < j < r.len() implies spec_lex_le(
            #[trigger] r[i],
            #[trigger] r[j],
        ) by {
            if i == 0 {
                assert(r[j] == rt[j - 1]);
                lemma_insert_file_member(fs.drop_first(), x, j - 1);
                if rt[j - 1] == x {
                    assert(spec_lex_le(fs[0], x));
                } else {
                    let m = choose|m: int|
                        0 <= m < fs.drop_first().len() && #[trigger] fs.drop_first()[m] == rt[j
                            - 1];
                    assert(fs.drop_first()[m] == fs[m + 1]);
                    assert(spec_lex_le(fs[0], fs[m + 1]));
                }
            } else {
                assert(r[i] == rt[i - 1]);
                assert(r[j] == rt[j - 1]);
            }
        }
    }
}

/// Every element of an insertion result is the new path or one of the old.
proof fn lemma_insert_file_member(fs: Seq<Seq<u8>>, x: Seq<u8>, j: int)
    requires
        0 <= j < spec_insert_file(fs, x).len(),
    ensures
        spec_insert_file(fs, x)[j] == x || exists|m: int|
            0 <= m < fs.len() && #[trigger] fs[m] == spec_insert_file(fs, x)[j],
    decreases fs.len(),
{
    let r = spec_insert_file(fs, x);
    if fs.len() == 0 {
    } else if spec_lex_le(x, fs[0]) {
        if j > 0 {
            assert(r[j] == fs[j - 1]);
        }
    } else {
        if j > 0 {
            assert(r[j] == spec_insert_file(fs.drop_first(), x)[j - 1]);
            lemma_insert_file_member(fs.drop_first(), x, j - 1);
            if spec_insert_file(fs.drop_first(), x)[j - 1] != x {
                let m = choose|m: int|
                    0 <= m < fs.drop_first().len() && #[trigger] fs.drop_first()[m]
                        == spec_insert_file(fs.drop_first(), x)[j - 1];
                assert(fs[m + 1] == r[j]);
            }
        } else {
            assert(r[0] == fs[0]);
        }
    }
}

/// The bytes of the key `committer`.
pub open spec fn kw_committer() -> Seq<u8> {
    seq![0x63u8, 0x6Fu8, 0x6Du8, 0x6Du8, 0x69u8, 0x74u8, 0x74u8, 0x65u8, 0x72u8]
}

/// The key `committer`.
pub fn kw_committer_vec() -> (r: Vec<u8>)
    ensures
        r@ == kw_committer(),
{
    let mut v: Vec<u8> = Vec::new();
    v.push(0x63);
    v.push(0x6F);
    v.push(0x6D);
    v.push(0x6D);
    v.push(0x69);
    v.push(0x74);
    v.push(0x74);
    v.push(0x65);
    v.push(0x72);
    proof {
        assert(v@ =~= kw_committer());
    }
    v
}

/// The views of a run of changeset ids.
pub open spec fn id_views(ps: Seq<HgChangesetId>) -> Seq<Seq<u8>> {
    ps.map_values(|p: HgChangesetId| p@)
}

/// The two parent ids of the hash computation: padded with the null id to
/// two, in ascending byte order.
pub open spec fn spec_sorted_parents(ps: Seq<Seq<u8>>) -> (Seq<u8>, Seq<u8>) {
    let a = if ps.len() >= 1 {
        ps[0]
    } else {
        spec_null_oid()
    };
    let b = if ps.len() >= 2 {
        ps[1]
    } else {
        spec_null_oid()
    };
    if spec_lex_le(a, b) {
        (a, b)
    } else {
        (b, a)
    }
}

/// What is hashed before the changeset bytes: both sorted parent ids.
pub open spec fn spec_parents_prefix(ps: Seq<Seq<u8>>) -> Seq<u8> {
    spec_sorted_parents(ps).0 + spec_sorted_parents(ps).1
}

/// The id of a changeset: the digest of its sorted parent ids followed by
/// its bytes.
pub fn hg_node_hash(parents: &Vec<HgChangesetId>, data: &[u8]) -> (r: HgChangesetId)
    requires
        parents@.len() <= 2,
    ensures
        r@ == sha1_of(spec_parents_prefix(id_views(parents@)) + data@),
{
    let null_id = HgChangesetId::null();
    let a = if parents.len() >= 1 {
        parents[0]
    } else {
        null_id
    };
    let b = if parents.len() >= 2 {
        parents[1]
    } else {
        null_id
    };
    let (first, second) = if crate::bytes::lex_le(
        a.as_raw_bytes().as_slice(),
        b.as_raw_bytes().as_slice(),
    ) {
        (a, b)
    } else {
        (b, a)
    };
    let mut buf: Vec<u8> = Vec::new();
    append_bytes(&mut buf, first.as_raw_bytes().as_slice());
    append_bytes(&mut buf, second.as_raw_bytes().as_slice());
    append_bytes(&mut buf, data);
    proof {
        assert(buf@ =~= spec_parents_prefix(id_views(parents@)) + data@);
    }
    let digest = sha1_digest(buf.as_slice());
    HgChangesetId::from_raw_bytes(digest)
}

/// Each path on a line of its own, each preceded by a newline.
pub open spec fn spec_files_lines(fs: Seq<Seq<u8>>) -> Seq<u8>
    decreases fs.len(),
{
    if fs.len() == 0 {
        Seq::empty()
    } else {
        seq![0x0Au8] + fs[0] + spec_files_lines(fs.drop_first())
    }
}

/// The canonical foreign changeset text a commit and its metadata denote:
/// manifest-id line, author line (the override, or the one derived from the
/// commit), the `timestamp utcoffset [extra]` line (with a `committer` entry
/// injected when the commit's committer differs from its author and no entry
/// is present), the sorted file paths, a blank line, and the commit body.
pub open spec fn spec_canonical(c: Commit, m: GitChangesetMetadata) -> Seq<u8> {
    let author = match m.author {
        Some(a) => a@,
        None => spec_hg_author(c.author@),
    };
    let base = match m.extra {
        Some(e) => spec_extra_from(e@),
        None => Seq::empty(),
    };
    let need_committer = spec_lookup(base, kw_committer()) is None && c.author@ != c.committer@;
    let pairs = if need_committer {
        spec_insert(base, kw_committer(), spec_hg_committer_line(c.committer@))
    } else {
        base
    };
    let has_extra = m.extra is Some || need_committer;
    spec_hex(m.manifest_id@) + seq![0x0Au8] + author + seq![0x0Au8] + spec_hg_timestamp(c.author@)
        + seq![0x20u8] + spec_hg_utcoffset(c.author@) + (if has_extra {
        seq![0x20u8] + spec_dump(pairs)
    } else {
        Seq::<u8>::empty()
    }) + spec_files_lines(spec_sort_files(m.spec_files())) + seq![0x0Au8, 0x0Au8] + c.body@
}

/// The conflict adjustment: while the buffer ends with a NUL byte and its
/// hash over the sorted parents does not give the target id, drop that byte.
pub open spec fn spec_strip(buf: Seq<u8>, node: Seq<u8>, prefix: Seq<u8>) -> Seq<u8>
    decreases buf.len(),
{
    if buf.len() > 0 && buf.last() == 0 && sha1_of(prefix + buf) != node {
        spec_strip(buf.drop_last(), node, prefix)
    } else {
        buf
    }
}

/// The canonical text with the recorded patch applied: what reconstruction
/// produces before the id collision adjustment. `None` on a malformed or
/// inapplicable patch. This stage needs no parent ids.
pub open spec fn spec_patched(c: Commit, m: GitChangesetMetadata) -> Option<Seq<u8>> {
    let canon = spec_canonical(c, m);
    match m.patch {
        None => Some(canon),
        Some(p) => match spec_parse_patch(p@) {
            Some(hs) => spec_apply(canon, hs),
            None => None,
        },
    }
}

/// What reconstruction produces: the canonical text, patched when a patch is
/// recorded, then adjusted for the id collision case unless the target id is
/// null. `None` on a malformed or inapplicable patch.
pub open spec fn spec_reconstruct(
    c: Commit,
    m: GitChangesetMetadata,
    parents: Seq<Seq<u8>>,
) -> Option<Seq<u8>> {
    match spec_patched(c, m) {
        None => None,
        Some(buf) => Some(
            if m.changeset_id@ != spec_null_oid() {
                spec_strip(buf, m.changeset_id@, spec_parents_prefix(parents))
            } else {
                buf
            },
        ),
    }
}

/// Drop trailing NUL bytes until the hash matches the target or none are
/// left.
fn strip_nuls(
    input: Vec<u8>,
    node: &HgChangesetId,
    first: &HgChangesetId,
    second: &HgChangesetId,
) -> (r: Vec<u8>)
    ensures
        r@ == spec_strip(input@, node@, first@ + second@),
{
    let mut prefix: Vec<u8> = Vec::new();
    append_bytes(&mut prefix, first.as_raw_bytes().as_slice());
    append_bytes(&mut prefix, second.as_raw_bytes().as_slice());
    let mut cur = input;
    while cur.len() > 0 && cur[cur.len() - 1] == 0
        invariant
            prefix@ == first@ + second@,
            spec_strip(input@, node@, prefix@) == spec_strip(cur@, node@, prefix@),
        decreases cur@.len(),
    {
        let mut hashed: Vec<u8> = Vec::new();
        append_bytes(&mut hashed, prefix.as_slice());
        append_bytes(&mut hashed, cur.as_slice());
        proof {
            assert(hashed@ =~= prefix@ + cur@);
        }
        let digest = HgChangesetId::from_raw_bytes(sha1_digest(hashed.as_slice()));
        if digest == *node {
            return cur;
        }
        proof {
            assert(cur@.last() == 0);
        }
        cur.pop();
    }
    cur
}

impl RawHgChangeset {
    /// Regenerate the canonical changeset text with the recorded patch
    /// applied: everything of reconstruction that needs no parent ids.
    /// `None` when the recorded patch is malformed or inapplicable.
    #[verifier::rlimit(100)]
    pub fn reconstruct_patched(commit: &Commit, metadata: &GitChangesetMetadata) -> (r: Option<
        Vec<u8>,
    >)
        requires
            match metadata.extra {
                Some(e) => spec_extra_buf_wf(e@),
                None => true,
            },
        ensures
            match r {
                Some(v) => spec_patched(*commit, *metadata) == Some(v@),
                None => spec_patched(*commit, *metadata) is None,
            },
    {
        let mut buf: Vec<u8> = Vec::new();
        let mh = metadata.manifest_id.to_hex();
        append_bytes(&mut buf, mh.as_slice());
        buf.push(0x0A);
        let (derived_author, hg_ts, hg_utc) = crate::authorship::hg_authorship(
            commit.author.as_slice(),
        );
        match &metadata.author {
            Some(a) => {
                append_bytes(&mut buf, a.as_slice());
            },
            None => {
                append_bytes(&mut buf, derived_author.as_slice());
            },
        }
        buf.push(0x0A);
        append_bytes(&mut buf, hg_ts.as_slice());
        buf.push(0x20);
        append_bytes(&mut buf, hg_utc.as_slice());
        let ghost author_part = match &metadata.author {
            Some(a) => a@,
            None => spec_hg_author(commit.author@),
        };
        proof {
            assert(buf@ =~= spec_hex(metadata.manifest_id@) + seq![0x0Au8] + author_part + seq![
                0x0Au8,
            ] + spec_hg_timestamp(commit.author@) + seq![0x20u8] + spec_hg_utcoffset(
                commit.author@,
            ));
        }
        let ghost head = buf@;
        // the extra dictionary, with a committer entry injected when needed
        let mut extra_opt = metadata.extra();
        let committer_key = kw_committer_vec();
        let has_committer = match &extra_opt {
            Some(e) => e.get(committer_key.as_slice()).is_some(),
            None => false,
        };
        let need_committer = !has_committer && !crate::bytes::bytes_eq(
            commit.author.as_slice(),
            commit.committer.as_slice(),
        );
        if need_committer {
            let line = crate::authorship::hg_committer_line(commit.committer.as_slice());
            match &mut extra_opt {
                Some(e) => {
                    e.set(committer_key.as_slice(), line.as_slice());
                },
                None => {
                    let mut e = ChangesetExtra::new();
                    e.set(committer_key.as_slice(), line.as_slice());
                    extra_opt = Some(e);
                },
            }
        }
        let ghost base = match &metadata.extra {
            Some(e) => spec_extra_from(e@),
            None => Seq::empty(),
        };
        let ghost need = spec_lookup(base, kw_committer()) is None && commit.author@
            != commit.committer@;
        let ghost pairs = if need {
            spec_insert(base, kw_committer(), spec_hg_committer_line(commit.committer@))
        } else {
            base
        };
        match &extra_opt {
            Some(e) => {
                proof {
                    assert(e@ == pairs);
                }
                buf.push(0x20);
                e.dump_into(&mut buf);
                proof {
                    assert(buf@ =~= head + seq![0x20u8] + spec_dump(pairs));
                }
            },
            None => {
            },
        }
        let ghost with_extra = buf@;
        // the sorted file paths
        let files = metadata.files();
        let sorted = sort_files(&files);
        let ghost sorted_views = spec_sort_files(metadata.spec_files());
        let mut i: usize = 0;
        proof {
            assert(sorted_views.skip(0) =~= sorted_views);
        }
        while i < sorted.len()
            invariant
                0 <= i <= sorted@.len(),
                views(sorted@) == sorted_views,
                buf@ + spec_files_lines(sorted_views.skip(i as int)) == with_extra
                    + spec_files_lines(sorted_views),
            decreases sorted@.len() - i,
        {
            proof {
                assert(sorted_views.skip(i as int)[0] == sorted@[i as int]@);
                assert(sorted_views.skip(i as int).drop_first() =~= sorted_views.skip(i + 1));
            }
            buf.push(0x0A);
            append_bytes(&mut buf, sorted[i].as_slice());
            i = i + 1;
        }
        proof {
            assert(sorted_views.skip(sorted@.len() as int) =~= Seq::<Seq<u8>>::empty());
            assert(buf@ + Seq::<u8>::empty() =~= buf@);
            assert(buf@ =~= with_extra + spec_files_lines(sorted_views));
        }
        buf.push(0x0A);
        buf.push(0x0A);
        append_bytes(&mut buf, commit.body.as_slice());
        proof {
            assert(buf@ =~= spec_canonical(*commit, *metadata));
        }
        // the recorded patch, if any
        let patched: Vec<u8> = match metadata.patch() {
            None => buf,
            Some(p) => match p.apply(buf.as_slice()) {
                Some(v) => v,
                None => {
                    return None;
                },
            },
        };
        Some(patched)
    }

    /// Regenerate the foreign changeset bytes from a native commit, its
    /// metadata record, and the foreign ids of its parents. `None` when the
    /// recorded patch is malformed or inapplicable.
    pub fn from_metadata(
        commit: &Commit,
        metadata: &GitChangesetMetadata,
        parents: &Vec<HgChangesetId>,
    ) -> (r: Option<RawHgChangeset>)
        requires
            match metadata.extra {
                Some(e) => spec_extra_buf_wf(e@),
                None => true,
            },
            parents@.len() <= 2,
        ensures
            match r {
                Some(rc) => spec_reconstruct(*commit, *metadata, id_views(parents@)) == Some(
                    rc@,
                ),
                None => spec_reconstruct(*commit, *metadata, id_views(parents@)) is None,
            },
    {
        let patched: Vec<u8> = match Self::reconstruct_patched(commit, metadata) {
            Some(v) => v,
            None => {
                return None;
            },
        };
        // the conflict adjustment
        let null_id = HgChangesetId::null();
        if metadata.changeset_id == null_id {
            return Some(RawHgChangeset(patched));
        }
        let a = if parents.len() >= 1 {
            parents[0]
        } else {
            null_id
        };
        let b = if parents.len() >= 2 {
            parents[1]
        } else {
            null_id
        };
        let (first, second) = if crate::bytes::lex_le(
            a.as_raw_bytes().as_slice(),
            b.as_raw_bytes().as_slice(),
        ) {
            (a, b)
        } else {
            (b, a)
        };
        proof {
            assert(first@ + second@ =~= spec_parents_prefix(id_views(parents@)));
        }
        let stripped = strip_nuls(patched, &metadata.changeset_id, &first, &second);
        Some(RawHgChangeset(stripped))
    }
}

/// A freshly generated metadata record: owned storage for each field.
pub type GeneratedGitChangesetMetadata = GitChangesetMetadata;

impl GitChangesetMetadata {
    /// Derive the minimal metadata side-record that lets `from_metadata`
    /// regenerate `raw` exactly from `commit`: each override is present only
    /// when the canonical value differs, and a patch only when the canonical
    /// text itself differs.
    pub fn generate(
        commit: &Commit,
        changeset_id: &HgChangesetId,
        raw: &RawHgChangeset,
        parents: &Vec<HgChangesetId>,
    ) -> (r: Option<GitChangesetMetadata>)
        requires
            parents@.len() <= 2,
            match spec_parse_changeset(raw@) {
                Some(f) => match f.extra {
                    Some(e) => spec_extra_buf_wf(e),
                    None => true,
                },
                None => true,
            },
        ensures
            match r {
                Some(md) => {
                    &&& md.changeset_id@ == changeset_id@
                    &&& spec_parse_changeset(raw@) matches Some(f) && md.manifest_id@
                        == f.manifest
                    &&& (md.extra matches Some(e) ==> spec_extra_buf_wf(e@))
                    &&& ({
                        let canon = spec_canonical(*commit, md);
                        let stripped = if md.changeset_id@ != spec_null_oid() {
                            spec_strip(
                                canon,
                                md.changeset_id@,
                                spec_parents_prefix(id_views(parents@)),
                            )
                        } else {
                            canon
                        };
                        match md.patch {
                            None => stripped == raw@,
                            Some(p) => spec_parse_patch(p@) == Some(
                                crate::patch::spec_byte_diff(stripped, raw@),
                            ) && stripped != raw@,
                        }
                    })
                },
                None => spec_parse_changeset(raw@) is None,
            },
    {
        let cs = match raw.parse() {
            Some(cs) => cs,
            None => {
                return None;
            },
        };
        let (derived_author, _dts, _dutc) = crate::authorship::hg_authorship(
            commit.author.as_slice(),
        );
        let author: Option<Vec<u8>> = if crate::bytes::bytes_eq(
            derived_author.as_slice(),
            cs.author.as_slice(),
        ) {
            None
        } else {
            Some(vstd::slice::slice_to_vec(cs.author.as_slice()))
        };
        let committer_key = kw_committer_vec();
        let derived_committer = crate::authorship::hg_committer_line(commit.committer.as_slice());
        let extra: Option<Vec<u8>> = match cs.extra() {
            None => None,
            Some(mut e) => {
                let drop_entry = match e.get(committer_key.as_slice()) {
                    Some(v) => crate::bytes::bytes_eq(v.as_slice(), derived_committer.as_slice()),
                    None => false,
                };
                let keep = if drop_entry {
                    e.unset(committer_key.as_slice());
                    !e.is_empty()
                } else {
                    true
                };
                if keep {
                    let mut dumped: Vec<u8> = Vec::new();
                    proof {
                        crate::extra::lemma_from_encodable(
                            spec_parse_changeset(raw@).unwrap().extra.unwrap(),
                        );
                        if drop_entry {
                            crate::extra::lemma_remove_encodable(
                                crate::extra::spec_extra_from(
                                    spec_parse_changeset(raw@).unwrap().extra.unwrap(),
                                ),
                                kw_committer(),
                            );
                        }
                        if e@.len() > 0 {
                            crate::extra::lemma_dump_buf_wf(e@);
                        } else {
                            assert(spec_dump(e@) =~= Seq::<u8>::empty());
                        }
                    }
                    e.dump_into(&mut dumped);
                    proof {
                        assert(dumped@ =~= spec_dump(e@));
                    }
                    Some(dumped)
                } else {
                    None
                }
            },
        };
        let files: Option<Vec<u8>> = match cs.files() {
            Some(fs) => Some(crate::bytes::join_bytes(&fs, 0)),
            None => None,
        };
        let temp = GitChangesetMetadata {
            changeset_id: *changeset_id,
            manifest_id: cs.manifest,
            author,
            extra,
            files,
            patch: None,
        };
        let new = match RawHgChangeset::from_metadata(commit, &temp, parents) {
            Some(n) => n,
            None => {
                proof {
                    assert(false);
                }
                return None;
            },
        };
        if crate::bytes::bytes_eq(new.0.as_slice(), raw.0.as_slice()) {
            proof {
                assert(spec_canonical(*commit, temp) == spec_canonical(*commit, temp));
            }
            return Some(temp);
        }
        let hunks = crate::patch::byte_diff(new.0.as_slice(), raw.0.as_slice());
        let patch_bytes = crate::patch::GitChangesetPatch::from_patch_info(&hunks);
        proof {
            let hv = crate::patch::hunks_view(hunks@);
            assert(hv.len() > 0);
            assert forall|i: int| 0 <= i < hv.len() implies 0 <= (#[trigger] hv[i]).0
                <= usize::MAX && 0 <= hv[i].1 <= usize::MAX by {
                assert(hv[i] == hunks@[i]@);
            }
            crate::patch::lemma_patch_roundtrip(hv);
        }
        let md = GitChangesetMetadata {
            changeset_id: temp.changeset_id,
            manifest_id: temp.manifest_id,
            author: temp.author,
            extra: temp.extra,
            files: temp.files,
            patch: Some(patch_bytes),
        };
        proof {
            assert(spec_canonical(*commit, md) == spec_canonical(*commit, temp));
        }
        Some(md)
    }
}

/// Deriving a record with `generate` and reconstructing with `from_metadata`
/// reproduces the original bytes exactly, for any native commit and foreign
/// byte stream, as long as the canonical text itself survives the conflict
/// adjustment and the target id is the hash of the true bytes whenever they
/// end in a NUL (the historical collision case the adjustment exists for).
pub proof fn lemma_derive_then_reconstruct(
    c: Commit,
    md: GitChangesetMetadata,
    raw: Seq<u8>,
    parents: Seq<Seq<u8>>,
)
    requires
        ({
            let canon = spec_canonical(c, md);
            let stripped = if md.changeset_id@ != spec_null_oid() {
                spec_strip(canon, md.changeset_id@, spec_parents_prefix(parents))
            } else {
                canon
            };
            match md.patch {
                None => stripped == raw,
                Some(p) => spec_parse_patch(p@) == Some(
                    crate::patch::spec_byte_diff(stripped, raw),
                ) && stripped != raw,
            }
        }),
        md.changeset_id@ != spec_null_oid() ==> spec_strip(
            spec_canonical(c, md),
            md.changeset_id@,
            spec_parents_prefix(parents),
        ) == spec_canonical(c, md),
        md.changeset_id@ != spec_null_oid() ==> ((raw.len() > 0 && raw.last() == 0)
            ==> sha1_of(spec_parents_prefix(parents) + raw) == md.changeset_id@),
    ensures
        spec_reconstruct(c, md, parents) == Some(raw),
{
    let canon = spec_canonical(c, md);
    let prefix = spec_parents_prefix(parents);
    let stripped = if md.changeset_id@ != spec_null_oid() {
        spec_strip(canon, md.changeset_id@, prefix)
    } else {
        canon
    };
    assert(stripped == canon);
    let patched = match md.patch {
        None => Some(canon),
        Some(p) => match spec_parse_patch(p@) {
            Some(hs) => spec_apply(canon, hs),
            None => None::<Seq<u8>>,
        },
    };
    match md.patch {
        None => {
            assert(patched == Some(raw));
        },
        Some(p) => {
            crate::patch::lemma_byte_diff_correct(canon, raw);
            assert(patched == Some(raw));
        },
    }
    if md.changeset_id@ != spec_null_oid() {
        assert(spec_strip(raw, md.changeset_id@, prefix) == raw);
    }
}

/// Sort paths lexicographically.
pub fn sort_files(fs: &Vec<Vec<u8>>) -> (r: Vec<Vec<u8>>)
    ensures
        views(r@) == spec_sort_files(views(fs@)),
{
    let mut out: Vec<Vec<u8>> = Vec::new();
    let mut i: usize = 0;
    proof {
        assert(views(fs@).take(0) =~= Seq::<Seq<u8>>::empty());
        assert(views(out@) =~= spec_sort_files(views(fs@).take(0)));
    }
    while i < fs.len()
        invariant
            0 <= i <= fs@.len(),
            views(out@) == spec_sort_files(views(fs@).take(i as int)),
        decreases fs@.len() - i,
    {
        let x = vstd::slice::slice_to_vec(fs[i].as_slice());
        proof {
            assert(x@ == views(fs@)[i as int]);
        }
        insert_file(&mut out, x);
        proof {
            assert(views(fs@).take(i + 1).drop_last() =~= views(fs@).take(i as int));
            assert(views(fs@).take(i + 1).last() == views(fs@)[i as int]);
        }
        i = i + 1;
    }
    proof {
        assert(views(fs@).take(fs@.len() as int) =~= views(fs@));
    }
    out
}

} // verus!
