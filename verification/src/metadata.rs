//! The per-changeset metadata side-record: everything the native commit
//! cannot express (author override, extra dictionary, file list, patch),
//! serialized as a line-oriented blob of `<key> <value>` lines.

use vstd::prelude::*;

use crate::bytes::{
    append_bytes, bytes_eq, find_byte, lemma_find_first, lemma_join_push, lemma_split_join,
    spec_contains_byte, spec_hex, spec_join, spec_split,
};
use crate::oid::{lemma_oid_hex_roundtrip, spec_null_oid, spec_parse_oid, HgChangesetId,
    HgManifestId};

verus! {

/// The bytes of the key `changeset`.
pub open spec fn kw_changeset() -> Seq<u8> {
    seq![0x63u8, 0x68u8, 0x61u8, 0x6Eu8, 0x67u8, 0x65u8, 0x73u8, 0x65u8, 0x74u8]
}

/// The bytes of the key `manifest`.
pub open spec fn kw_manifest() -> Seq<u8> {
    seq![0x6Du8, 0x61u8, 0x6Eu8, 0x69u8, 0x66u8, 0x65u8, 0x73u8, 0x74u8]
}

/// The bytes of the key `author`.
pub open spec fn kw_author() -> Seq<u8> {
    seq![0x61u8, 0x75u8, 0x74u8, 0x68u8, 0x6Fu8, 0x72u8]
}

/// The bytes of the key `extra`.
pub open spec fn kw_extra() -> Seq<u8> {
    seq![0x65u8, 0x78u8, 0x74u8, 0x72u8, 0x61u8]
}

/// The bytes of the key `files`.
pub open spec fn kw_files() -> Seq<u8> {
    seq![0x66u8, 0x69u8, 0x6Cu8, 0x65u8, 0x73u8]
}

/// The bytes of the key `patch`.
pub open spec fn kw_patch() -> Seq<u8> {
    seq![0x70u8, 0x61u8, 0x74u8, 0x63u8, 0x68u8]
}

/// The key `changeset`.
pub fn kw_changeset_vec() -> (r: Vec<u8>)
    ensures
        r@ == kw_changeset(),
{
    let mut v: Vec<u8> = Vec::new();
    v.push(0x63);
    v.push(0x68);
    v.push(0x61);
    v.push(0x6E);
    v.push(0x67);
    v.push(0x65);
    v.push(0x73);
    v.push(0x65);
    v.push(0x74);
    proof {
        assert(v@ =~= kw_changeset());
    }
    v
}

/// The key `manifest`.
pub fn kw_manifest_vec() -> (r: Vec<u8>)
    ensures
        r@ == kw_manifest(),
{
    let mut v: Vec<u8> = Vec::new();
    v.push(0x6D);
    v.push(0x61);
    v.push(0x6E);
    v.push(0x69);
    v.push(0x66);
    v.push(0x65);
    v.push(0x73);
    v.push(0x74);
    proof {
        assert(v@ =~= kw_manifest());
    }
    v
}

/// The key `author`.
pub fn kw_author_vec() -> (r: Vec<u8>)
    ensures
        r@ == kw_author(),
{
    let mut v: Vec<u8> = Vec::new();
    v.push(0x61);
    v.push(0x75);
    v.push(0x74);
    v.push(0x68);
    v.push(0x6F);
    v.push(0x72);
    proof {
        assert(v@ =~= kw_author());
    }
    v
}

/// The key `extra`.
pub fn kw_extra_vec() -> (r: Vec<u8>)
    ensures
        r@ == kw_extra(),
{
    let mut v: Vec<u8> = Vec::new();
    v.push(0x65);
    v.push(0x78);
    v.push(0x74);
    v.push(0x72);
    v.push(0x61);
    proof {
        assert(v@ =~= kw_extra());
    }
    v
}

/// The key `files`.
pub fn kw_files_vec() -> (r: Vec<u8>)
    ensures
        r@ == kw_files(),
{
    let mut v: Vec<u8> = Vec::new();
    v.push(0x66);
    v.push(0x69);
    v.push(0x6C);
    v.push(0x65);
    v.push(0x73);
    proof {
        assert(v@ =~= kw_files());
    }
    v
}

/// The key `patch`.
pub fn kw_patch_vec() -> (r: Vec<u8>)
    ensures
        r@ == kw_patch(),
{
    let mut v: Vec<u8> = Vec::new();
    v.push(0x70);
    v.push(0x61);
    v.push(0x74);
    v.push(0x63);
    v.push(0x68);
    proof {
        assert(v@ =~= kw_patch());
    }
    v
}

/// The view of an optional byte field.
pub open spec fn opt_bytes(o: Option<Vec<u8>>) -> Option<Seq<u8>> {
    match o {
        Some(v) => Some(v@),
        None => None,
    }
}

/// A changeset's metadata side-record.
#[derive(Debug)]
pub struct GitChangesetMetadata {
    pub changeset_id: HgChangesetId,
    pub manifest_id: HgManifestId,
    pub author: Option<Vec<u8>>,
    pub extra: Option<Vec<u8>>,
    pub files: Option<Vec<u8>>,
    pub patch: Option<Vec<u8>>,
}

/// The lines a metadata record serializes to: `changeset`, then `manifest`
/// unless it is the well-known empty id, then each optional field present.
pub open spec fn spec_md_lines(m: GitChangesetMetadata) -> Seq<Seq<u8>> {
    let cs = seq![kw_changeset() + seq![0x20u8] + spec_hex(m.changeset_id@)];
    let mf = if m.manifest_id@ != spec_null_oid() {
        seq![kw_manifest() + seq![0x20u8] + spec_hex(m.manifest_id@)]
    } else {
        Seq::<Seq<u8>>::empty()
    };
    let au = match m.author {
        Some(a) => seq![kw_author() + seq![0x20u8] + a@],
        None => Seq::<Seq<u8>>::empty(),
    };
    let ex = match m.extra {
        Some(e) => seq![kw_extra() + seq![0x20u8] + e@],
        None => Seq::<Seq<u8>>::empty(),
    };
    let fi = match m.files {
        Some(f) => seq![kw_files() + seq![0x20u8] + f@],
        None => Seq::<Seq<u8>>::empty(),
    };
    let pa = match m.patch {
        Some(p) => seq![kw_patch() + seq![0x20u8] + p@],
        None => Seq::<Seq<u8>>::empty(),
    };
    cs + mf + au + ex + fi + pa
}

/// The serialized record: its lines joined by newlines, no trailing newline.
pub open spec fn spec_md_serialize(m: GitChangesetMetadata) -> Seq<u8> {
    spec_join(spec_md_lines(m), 0x0A)
}

/// The fields collected while parsing a metadata blob.
pub struct MetadataFields {
    pub changeset: Option<Seq<u8>>,
    pub manifest: Option<Seq<u8>>,
    pub author: Option<Seq<u8>>,
    pub extra: Option<Seq<u8>>,
    pub files: Option<Seq<u8>>,
    pub patch: Option<Seq<u8>>,
}

/// Parse one `<key> <value>` line into the collected fields; an unknown key
/// or a line without a space fails.
pub open spec fn spec_parse_md_line(acc: MetadataFields, line: Seq<u8>) -> Option<MetadataFields> {
    match crate::bytes::spec_find_byte(line, 0x20, 0) {
        None => None,
        Some(sp) => {
            let key = line.take(sp);
            let value = line.skip(sp + 1);
            if key == kw_changeset() {
                match spec_parse_oid(value) {
                    Some(id) => Some(MetadataFields { changeset: Some(id), ..acc }),
                    None => None,
                }
            } else if key == kw_manifest() {
                match spec_parse_oid(value) {
                    Some(id) => Some(MetadataFields { manifest: Some(id), ..acc }),
                    None => None,
                }
            } else if key == kw_author() {
                Some(MetadataFields { author: Some(value), ..acc })
            } else if key == kw_extra() {
                Some(MetadataFields { extra: Some(value), ..acc })
            } else if key == kw_files() {
                Some(MetadataFields { files: Some(value), ..acc })
            } else if key == kw_patch() {
                Some(MetadataFields { patch: Some(value), ..acc })
            } else {
                None
            }
        },
    }
}

/// Parse a sequence of lines.
pub open spec fn spec_parse_md_lines(acc: MetadataFields, lines: Seq<Seq<u8>>) -> Option<
    MetadataFields,
>
    decreases lines.len(),
{
    if lines.len() == 0 {
        Some(acc)
    } else {
        match spec_parse_md_line(acc, lines[0]) {
            Some(a) => spec_parse_md_lines(a, lines.drop_first()),
            None => None,
        }
    }
}

/// No field seen yet.
pub open spec fn spec_md_fields_empty() -> MetadataFields {
    MetadataFields {
        changeset: None,
        manifest: None,
        author: None,
        extra: None,
        files: None,
        patch: None,
    }
}

/// What a metadata blob parses to: its newline-separated lines folded into
/// fields, requiring a `changeset` line.
pub open spec fn spec_parse_md(bytes: Seq<u8>) -> Option<MetadataFields> {
    match spec_parse_md_lines(spec_md_fields_empty(), spec_split(bytes, 0x0A)) {
        Some(f) => if f.changeset is Some {
            Some(f)
        } else {
            None
        },
        None => None,
    }
}

/// The raw bytes of a stored metadata blob.
#[derive(Debug)]
pub struct RawGitChangesetMetadata(pub Vec<u8>);

impl View for RawGitChangesetMetadata {
    type V = Seq<u8>;

    open spec fn view(&self) -> Seq<u8> {
        self.0@
    }
}

impl RawGitChangesetMetadata {
    /// Wrap a blob's bytes.
    pub fn from_bytes(bytes: Vec<u8>) -> (r: Self)
        ensures
            r@ == bytes@,
    {
        RawGitChangesetMetadata(bytes)
    }

    /// Parse the blob. `None` rather than an error on any malformed line:
    /// such a blob carries no metadata.
    pub fn parse(&self) -> (r: Option<GitChangesetMetadata>)
        ensures
            match r {
                Some(m) => spec_parse_md(self@) matches Some(f) && {
                    &&& f.changeset == Some(m.changeset_id@)
                    &&& match f.manifest {
                        Some(x) => m.manifest_id@ == x,
                        None => m.manifest_id@ == spec_null_oid(),
                    }
                    &&& f.author == opt_bytes(m.author)
                    &&& f.extra == opt_bytes(m.extra)
                    &&& f.files == opt_bytes(m.files)
                    &&& f.patch == opt_bytes(m.patch)
                },
                None => spec_parse_md(self@) is None,
            },
    {
        let lines = crate::bytes::split_byte(self.0.as_slice(), 0x0A);
        let mut changeset: Option<HgChangesetId> = None;
        let mut manifest: Option<HgManifestId> = None;
        let mut author: Option<Vec<u8>> = None;
        let mut extra: Option<Vec<u8>> = None;
        let mut files: Option<Vec<u8>> = None;
        let mut patch: Option<Vec<u8>> = None;
        let mut i: usize = 0;
        let ghost all = crate::bytes::views(lines@);
        proof {
            assert(all.skip(0) =~= all);
        }
        while i < lines.len()
            invariant
                0 <= i <= lines@.len(),
                all == crate::bytes::views(lines@),
                all == spec_split(self@, 0x0A),
                spec_parse_md_lines(spec_md_fields_empty(), all) == spec_parse_md_lines(
                    MetadataFields {
                        changeset: match changeset {
                            Some(id) => Some(id@),
                            None => None,
                        },
                        manifest: match manifest {
                            Some(id) => Some(id@),
                            None => None,
                        },
                        author: opt_bytes(author),
                        extra: opt_bytes(extra),
                        files: opt_bytes(files),
                        patch: opt_bytes(patch),
                    },
                    all.skip(i as int),
                ),
            decreases lines@.len() - i,
        {
            let line = &lines[i];
            proof {
                assert(all[i as int] == line@);
                assert(all.skip(i as int)[0] == line@);
                assert(all.skip(i as int).drop_first() =~= all.skip(i + 1));
            }
            let sp = match find_byte(line.as_slice(), 0x20) {
                Some(sp) => sp,
                None => {
                    return None;
                },
            };
            proof {
                crate::bytes::lemma_find_byte_props(line@, 0x20, 0);
                assert(sp < line@.len());
            }
            let key = vstd::slice::slice_subrange(line.as_slice(), 0, sp);
            let value = vstd::slice::slice_to_vec(vstd::slice::slice_subrange(
                line.as_slice(),
                sp + 1,
                line.len(),
            ));
            proof {
                assert(key@ =~= line@.take(sp as int));
                assert(value@ =~= line@.skip(sp as int + 1));
            }
            if bytes_eq(key, kw_changeset_vec().as_slice()) {
                match HgChangesetId::from_bytes(value.as_slice()) {
                    Some(id) => {
                        changeset = Some(id);
                    },
                    None => {
                        return None;
                    },
                }
            } else if bytes_eq(key, kw_manifest_vec().as_slice()) {
                match HgManifestId::from_bytes(value.as_slice()) {
                    Some(id) => {
                        manifest = Some(id);
                    },
                    None => {
                        return None;
                    },
                }
            } else if bytes_eq(key, kw_author_vec().as_slice()) {
                author = Some(value);
            } else if bytes_eq(key, kw_extra_vec().as_slice()) {
                extra = Some(value);
            } else if bytes_eq(key, kw_files_vec().as_slice()) {
                files = Some(value);
            } else if bytes_eq(key, kw_patch_vec().as_slice()) {
                patch = Some(value);
            } else {
                return None;
            }
            i = i + 1;
        }
        proof {
            assert(all.skip(lines@.len() as int) =~= Seq::<Seq<u8>>::empty());
        }
        let changeset_id = match changeset {
            Some(id) => id,
            None => {
                return None;
            },
        };
        let manifest_id = match manifest {
            Some(id) => id,
            None => HgManifestId::null(),
        };
        Some(
            GitChangesetMetadata {
                changeset_id,
                manifest_id,
                author,
                extra,
                files,
                patch,
            },
        )
    }
}

impl GitChangesetMetadata {
    /// The foreign changeset this record belongs to.
    pub fn changeset_id(&self) -> (r: &HgChangesetId)
        ensures
            r@ == self.changeset_id@,
    {
        &self.changeset_id
    }

    /// The foreign manifest the changeset refers to.
    pub fn manifest_id(&self) -> (r: &HgManifestId)
        ensures
            r@ == self.manifest_id@,
    {
        &self.manifest_id
    }

    /// The author override, present only when the commit's derived author
    /// differs from the foreign original.
    pub fn author(&self) -> (r: Option<&Vec<u8>>)
        ensures
            match r {
                Some(a) => opt_bytes(self.author) == Some(a@),
                None => self.author is None,
            },
    {
        match &self.author {
            Some(a) => Some(a),
            None => None,
        }
    }

    /// The serialized extra dictionary, if any.
    pub fn extra_bytes(&self) -> (r: Option<&Vec<u8>>)
        ensures
            match r {
                Some(e) => opt_bytes(self.extra) == Some(e@),
                None => self.extra is None,
            },
    {
        match &self.extra {
            Some(e) => Some(e),
            None => None,
        }
    }

    /// The extra dictionary, parsed.
    pub fn extra(&self) -> (r: Option<crate::extra::ChangesetExtra>)
        requires
            match self.extra {
                Some(e) => crate::extra::spec_extra_buf_wf(e@),
                None => true,
            },
        ensures
            match r {
                Some(e) => opt_bytes(self.extra) matches Some(b) && e@
                    == crate::extra::spec_extra_from(b) && e.well_formed(),
                None => self.extra is None,
            },
    {
        match &self.extra {
            Some(e) => Some(crate::extra::ChangesetExtra::from(e.as_slice())),
            None => None,
        }
    }

    /// The NUL-separated file paths of the record: none when the field is
    /// absent, the split parts when present.
    pub open spec fn spec_files(&self) -> Seq<Seq<u8>> {
        match self.files {
            Some(f) => spec_split(f@, 0),
            None => Seq::<Seq<u8>>::empty(),
        }
    }

    /// The file paths listed in the record.
    pub fn files(&self) -> (r: Vec<Vec<u8>>)
        ensures
            crate::bytes::views(r@) == self.spec_files(),
    {
        match &self.files {
            Some(f) => crate::bytes::split_byte(f.as_slice(), 0),
            None => {
                let r: Vec<Vec<u8>> = Vec::new();
                proof {
                    assert(crate::bytes::views(r@) =~= Seq::<Seq<u8>>::empty());
                }
                r
            },
        }
    }

    /// The encoded patch, if any.
    pub fn patch(&self) -> (r: Option<crate::patch::GitChangesetPatch>)
        ensures
            match r {
                Some(p) => opt_bytes(self.patch) == Some(p@),
                None => self.patch is None,
            },
    {
        match &self.patch {
            Some(p) => Some(
                crate::patch::GitChangesetPatch::from_bytes(vstd::slice::slice_to_vec(
                    p.as_slice(),
                )),
            ),
            None => None,
        }
    }

    /// Serialize the record.
    #[verifier::rlimit(60)]
    pub fn serialize(&self) -> (r: Vec<u8>)
        ensures
            r@ == spec_md_serialize(*self),
    {
        let ghost ls = spec_md_lines(*self);
        let mut out: Vec<u8> = Vec::new();
        let mut kw = kw_changeset_vec();
        append_bytes(&mut out, kw.as_slice());
        out.push(0x20);
        let hexed = self.changeset_id.to_hex();
        append_bytes(&mut out, hexed.as_slice());
        let ghost mut done: Seq<Seq<u8>> = seq![ls[0]];
        proof {
            assert(out@ =~= ls[0]);
            assert(out@ =~= spec_join(done, 0x0A));
        }
        let null_manifest = HgManifestId::null();
        if !(self.manifest_id == null_manifest) {
            out.push(0x0A);
            kw = kw_manifest_vec();
            append_bytes(&mut out, kw.as_slice());
            out.push(0x20);
            let mh = self.manifest_id.to_hex();
            append_bytes(&mut out, mh.as_slice());
            proof {
                let line = kw_manifest() + seq![0x20u8] + spec_hex(self.manifest_id@);
                lemma_join_push(done, line, 0x0A);
                assert(out@ =~= spec_join(done, 0x0A) + seq![0x0Au8] + line);
                done = done.push(line);
            }
        }
        match &self.author {
            Some(a) => {
                out.push(0x0A);
                kw = kw_author_vec();
                append_bytes(&mut out, kw.as_slice());
                out.push(0x20);
                append_bytes(&mut out, a.as_slice());
                proof {
                    let line = kw_author() + seq![0x20u8] + a@;
                    lemma_join_push(done, line, 0x0A);
                    assert(out@ =~= spec_join(done, 0x0A) + seq![0x0Au8] + line);
                    done = done.push(line);
                }
            },
            None => {
            },
        }
        match &self.extra {
            Some(e) => {
                out.push(0x0A);
                kw = kw_extra_vec();
                append_bytes(&mut out, kw.as_slice());
                out.push(0x20);
                append_bytes(&mut out, e.as_slice());
                proof {
                    let line = kw_extra() + seq![0x20u8] + e@;
                    lemma_join_push(done, line, 0x0A);
                    assert(out@ =~= spec_join(done, 0x0A) + seq![0x0Au8] + line);
                    done = done.push(line);
                }
            },
            None => {
            },
        }
        match &self.files {
            Some(f) => {
                out.push(0x0A);
                kw = kw_files_vec();
                append_bytes(&mut out, kw.as_slice());
                out.push(0x20);
                append_bytes(&mut out, f.as_slice());
                proof {
                    let line = kw_files() + seq![0x20u8] + f@;
                    lemma_join_push(done, line, 0x0A);
                    assert(out@ =~= spec_join(done, 0x0A) + seq![0x0Au8] + line);
                    done = done.push(line);
                }
            },
            None => {
            },
        }
        match &self.patch {
            Some(p) => {
                out.push(0x0A);
                kw = kw_patch_vec();
                append_bytes(&mut out, kw.as_slice());
                out.push(0x20);
                append_bytes(&mut out, p.as_slice());
                proof {
                    let line = kw_patch() + seq![0x20u8] + p@;
                    lemma_join_push(done, line, 0x0A);
                    assert(out@ =~= spec_join(done, 0x0A) + seq![0x0Au8] + line);
                    done = done.push(line);
                }
            },
            None => {
            },
        }
        proof {
            assert(done =~= ls);
        }
        out
    }
}

/// Whether a record's optional fields can survive the line-oriented
/// serialization: none of them holds a newline.
pub open spec fn spec_md_valid(m: GitChangesetMetadata) -> bool {
    &&& m.changeset_id@.len() == 20
    &&& m.manifest_id@.len() == 20
    &&& (m.author matches Some(a) ==> !spec_contains_byte(a@, 0x0A))
    &&& (m.extra matches Some(e) ==> !spec_contains_byte(e@, 0x0A))
    &&& (m.files matches Some(f) ==> !spec_contains_byte(f@, 0x0A))
    &&& (m.patch matches Some(p) ==> !spec_contains_byte(p@, 0x0A))
}

/// Parsing lines processes a concatenation front part first.
proof fn lemma_parse_md_lines_append(acc: MetadataFields, a: Seq<Seq<u8>>, b: Seq<Seq<u8>>)
    ensures
        spec_parse_md_lines(acc, a + b) == match spec_parse_md_lines(acc, a) {
            Some(m) => spec_parse_md_lines(m, b),
            None => None::<MetadataFields>,
        },
    decreases a.len(),
{
    if a.len() == 0 {
        assert(a + b =~= b);
    } else {
        assert((a + b)[0] == a[0]);
        match spec_parse_md_line(acc, a[0]) {
            Some(m) => {
                assert((a + b).drop_first() =~= a.drop_first() + b);
                lemma_parse_md_lines_append(m, a.drop_first(), b);
            },
            None => {
            },
        }
    }
}

/// The effect of one `<key> <value>` line on the collected fields.
pub open spec fn spec_line_effect(acc: MetadataFields, key: Seq<u8>, value: Seq<u8>) -> Option<
    MetadataFields,
> {
    if key == kw_changeset() {
        match spec_parse_oid(value) {
            Some(id) => Some(MetadataFields { changeset: Some(id), ..acc }),
            None => None,
        }
    } else if key == kw_manifest() {
        match spec_parse_oid(value) {
            Some(id) => Some(MetadataFields { manifest: Some(id), ..acc }),
            None => None,
        }
    } else if key == kw_author() {
        Some(MetadataFields { author: Some(value), ..acc })
    } else if key == kw_extra() {
        Some(MetadataFields { extra: Some(value), ..acc })
    } else if key == kw_files() {
        Some(MetadataFields { files: Some(value), ..acc })
    } else if key == kw_patch() {
        Some(MetadataFields { patch: Some(value), ..acc })
    } else {
        None
    }
}

/// A `<key> <value>` line with a space-free key parses by that key.
proof fn lemma_parse_md_keyed_line(acc: MetadataFields, key: Seq<u8>, value: Seq<u8>)
    requires
        !spec_contains_byte(key, 0x20),
    ensures
        spec_parse_md_line(acc, key + seq![0x20u8] + value) == spec_line_effect(acc, key, value),
{
    let line = key + seq![0x20u8] + value;
    assert forall|j: int| 0 <= j < key.len() implies line[j] != 0x20 by {
        assert(line[j] == key[j]);
        assert(!spec_contains_byte(key, 0x20));
    }
    assert(line[key.len() as int] == 0x20);
    lemma_find_first(line, 0x20, key.len() as int);
    assert(line.take(key.len() as int) =~= key);
    assert(line.skip(key.len() as int + 1) =~= value);
}

/// None of the six keys holds a space, and they are pairwise distinct.
proof fn lemma_md_keys()
    ensures
        !spec_contains_byte(kw_changeset(), 0x20),
        !spec_contains_byte(kw_manifest(), 0x20),
        !spec_contains_byte(kw_author(), 0x20),
        !spec_contains_byte(kw_extra(), 0x20),
        !spec_contains_byte(kw_files(), 0x20),
        !spec_contains_byte(kw_patch(), 0x20),
        kw_manifest() != kw_changeset(),
        kw_author() != kw_changeset(),
        kw_author() != kw_manifest(),
        kw_extra() != kw_changeset(),
        kw_extra() != kw_manifest(),
        kw_extra() != kw_author(),
        kw_files() != kw_changeset(),
        kw_files() != kw_manifest(),
        kw_files() != kw_author(),
        kw_files() != kw_extra(),
        kw_patch() != kw_changeset(),
        kw_patch() != kw_manifest(),
        kw_patch() != kw_author(),
        kw_patch() != kw_extra(),
        kw_patch() != kw_files(),
{
    assert forall|j: int| 0 <= j < kw_changeset().len() implies kw_changeset()[j] != 0x20 by {
    }
    assert forall|j: int| 0 <= j < kw_manifest().len() implies kw_manifest()[j] != 0x20 by {
    }
    assert forall|j: int| 0 <= j < kw_author().len() implies kw_author()[j] != 0x20 by {
    }
    assert forall|j: int| 0 <= j < kw_extra().len() implies kw_extra()[j] != 0x20 by {
    }
    assert forall|j: int| 0 <= j < kw_files().len() implies kw_files()[j] != 0x20 by {
    }
    assert forall|j: int| 0 <= j < kw_patch().len() implies kw_patch()[j] != 0x20 by {
    }
    assert(kw_manifest()[0] != kw_changeset()[0]);
    assert(kw_author()[0] != kw_changeset()[0]);
    assert(kw_author()[0] != kw_manifest()[0]);
    assert(kw_extra()[0] != kw_changeset()[0]);
    assert(kw_extra()[0] != kw_manifest()[0]);
    assert(kw_extra()[0] != kw_author()[0]);
    assert(kw_files()[0] != kw_changeset()[0]);
    assert(kw_files()[0] != kw_manifest()[0]);
    assert(kw_files()[0] != kw_author()[0]);
    assert(kw_files()[0] != kw_extra()[0]);
    assert(kw_patch()[0] != kw_changeset()[0]);
    assert(kw_patch()[0] != kw_manifest()[0]);
    assert(kw_patch()[0] != kw_author()[0]);
    assert(kw_patch()[0] != kw_extra()[0]);
    assert(kw_patch()[0] != kw_files()[0]);
}

/// Serializing a valid record and parsing the result recovers every field:
/// the round-trip is the identity.
pub proof fn lemma_metadata_roundtrip(m: GitChangesetMetadata)
    requires
        spec_md_valid(m),
    ensures
        spec_parse_md(spec_md_serialize(m)) matches Some(f) && {
            &&& f.changeset == Some(m.changeset_id@)
            &&& match f.manifest {
                Some(x) => x == m.manifest_id@ && m.manifest_id@ != spec_null_oid(),
                None => m.manifest_id@ == spec_null_oid(),
            }
            &&& f.author == opt_bytes(m.author)
            &&& f.extra == opt_bytes(m.extra)
            &&& f.files == opt_bytes(m.files)
            &&& f.patch == opt_bytes(m.patch)
        },
{
    let ls = spec_md_lines(m);
    lemma_md_keys();
    // no line contains a newline
    assert forall|i: int| 0 <= i < ls.len() implies !spec_contains_byte(
        #[trigger] ls[i],
        0x0A,
    ) by {
        lemma_md_line_free(m, i);
    }
    lemma_split_join(ls, 0x0A);
    // fold the lines one by one
    let acc0 = spec_md_fields_empty();
    let cs_line = kw_changeset() + seq![0x20u8] + spec_hex(m.changeset_id@);
    lemma_parse_md_keyed_line(acc0, kw_changeset(), spec_hex(m.changeset_id@));
    lemma_oid_hex_roundtrip(m.changeset_id@);
    let acc1 = MetadataFields { changeset: Some(m.changeset_id@), ..acc0 };
    assert(spec_parse_md_line(acc0, cs_line) == Some(acc1));
    let mf = if m.manifest_id@ != spec_null_oid() {
        seq![kw_manifest() + seq![0x20u8] + spec_hex(m.manifest_id@)]
    } else {
        Seq::<Seq<u8>>::empty()
    };
    let acc2 = if m.manifest_id@ != spec_null_oid() {
        MetadataFields { manifest: Some(m.manifest_id@), ..acc1 }
    } else {
        acc1
    };
    if m.manifest_id@ != spec_null_oid() {
        lemma_parse_md_keyed_line(acc1, kw_manifest(), spec_hex(m.manifest_id@));
        lemma_oid_hex_roundtrip(m.manifest_id@);
        lemma_single_line(acc1, mf[0], acc2);
    }
    let au = match m.author {
        Some(a) => seq![kw_author() + seq![0x20u8] + a@],
        None => Seq::<Seq<u8>>::empty(),
    };
    let acc3 = match m.author {
        Some(a) => MetadataFields { author: Some(a@), ..acc2 },
        None => acc2,
    };
    match m.author {
        Some(a) => {
            lemma_parse_md_keyed_line(acc2, kw_author(), a@);
            lemma_single_line(acc2, au[0], acc3);
        },
        None => {
        },
    }
    let ex = match m.extra {
        Some(e) => seq![kw_extra() + seq![0x20u8] + e@],
        None => Seq::<Seq<u8>>::empty(),
    };
    let acc4 = match m.extra {
        Some(e) => MetadataFields { extra: Some(e@), ..acc3 },
        None => acc3,
    };
    match m.extra {
        Some(e) => {
            lemma_parse_md_keyed_line(acc3, kw_extra(), e@);
            lemma_single_line(acc3, ex[0], acc4);
        },
        None => {
        },
    }
    let fi = match m.files {
        Some(f) => seq![kw_files() + seq![0x20u8] + f@],
        None => Seq::<Seq<u8>>::empty(),
    };
    let acc5 = match m.files {
        Some(f) => MetadataFields { files: Some(f@), ..acc4 },
        None => acc4,
    };
    match m.files {
        Some(f) => {
            lemma_parse_md_keyed_line(acc4, kw_files(), f@);
            lemma_single_line(acc4, fi[0], acc5);
        },
        None => {
        },
    }
    let pa = match m.patch {
        Some(p) => seq![kw_patch() + seq![0x20u8] + p@],
        None => Seq::<Seq<u8>>::empty(),
    };
    let acc6 = match m.patch {
        Some(p) => MetadataFields { patch: Some(p@), ..acc5 },
        None => acc5,
    };
    match m.patch {
        Some(p) => {
            lemma_parse_md_keyed_line(acc5, kw_patch(), p@);
            lemma_single_line(acc5, pa[0], acc6);
        },
        None => {
        },
    }
    // chain the segments
    if m.manifest_id@ != spec_null_oid() {
        lemma_single_line(acc1, mf[0], acc2);
        assert(mf =~= seq![mf[0]]);
    } else {
        assert(spec_parse_md_lines(acc1, mf) == Some(acc2));
    }
    match m.author {
        Some(a) => {
            lemma_single_line(acc2, au[0], acc3);
            assert(au =~= seq![au[0]]);
        },
        None => {
            assert(spec_parse_md_lines(acc2, au) == Some(acc3));
        },
    }
    match m.extra {
        Some(e) => {
            lemma_single_line(acc3, ex[0], acc4);
            assert(ex =~= seq![ex[0]]);
        },
        None => {
            assert(spec_parse_md_lines(acc3, ex) == Some(acc4));
        },
    }
    match m.files {
        Some(f) => {
            lemma_single_line(acc4, fi[0], acc5);
            assert(fi =~= seq![fi[0]]);
        },
        None => {
            assert(spec_parse_md_lines(acc4, fi) == Some(acc5));
        },
    }
    match m.patch {
        Some(p) => {
            lemma_single_line(acc5, pa[0], acc6);
            assert(pa =~= seq![pa[0]]);
        },
        None => {
            assert(spec_parse_md_lines(acc5, pa) == Some(acc6));
        },
    }
    lemma_single_line(acc0, cs_line, acc1);
    let rest1 = mf + au + ex + fi + pa;
    let rest2 = au + ex + fi + pa;
    let rest3 = ex + fi + pa;
    let rest4 = fi + pa;
    assert(ls =~= seq![cs_line] + rest1);
    lemma_parse_md_lines_append(acc0, seq![cs_line], rest1);
    assert(spec_parse_md_lines(acc0, ls) == spec_parse_md_lines(acc1, rest1));
    assert(rest1 =~= mf + rest2);
    lemma_parse_md_lines_append(acc1, mf, rest2);
    assert(spec_parse_md_lines(acc1, rest1) == spec_parse_md_lines(acc2, rest2));
    assert(rest2 =~= au + rest3);
    lemma_parse_md_lines_append(acc2, au, rest3);
    assert(spec_parse_md_lines(acc2, rest2) == spec_parse_md_lines(acc3, rest3));
    assert(rest3 =~= ex + rest4);
    lemma_parse_md_lines_append(acc3, ex, rest4);
    assert(spec_parse_md_lines(acc3, rest3) == spec_parse_md_lines(acc4, rest4));
    lemma_parse_md_lines_append(acc4, fi, pa);
    assert(spec_parse_md_lines(acc4, rest4) == spec_parse_md_lines(acc5, pa));
    assert(spec_parse_md_lines(acc0, ls) == Some(acc6));
}

/// A single parsed line folds as that line's effect.
proof fn lemma_single_line(acc: MetadataFields, line: Seq<u8>, next: MetadataFields)
    requires
        spec_parse_md_line(acc, line) == Some(next),
    ensures
        spec_parse_md_lines(acc, seq![line]) == Some(next),
{
    let ls = seq![line];
    assert(ls[0] == line);
    assert(ls.drop_first() =~= Seq::<Seq<u8>>::empty());
    assert(ls.drop_first().len() == 0);
    assert(spec_parse_md_lines(next, ls.drop_first()) == Some(next));
}

/// A `<key> <value>` line of newline-free pieces holds no newline.
proof fn lemma_keyed_line_nl_free(key: Seq<u8>, value: Seq<u8>)
    requires
        !spec_contains_byte(key, 0x0A),
        !spec_contains_byte(value, 0x0A),
    ensures
        !spec_contains_byte(key + seq![0x20u8] + value, 0x0A),
{
    let line = key + seq![0x20u8] + value;
    assert forall|j: int| 0 <= j < line.len() implies line[j] != 0x0A by {
        if j < key.len() {
            assert(line[j] == key[j]);
            assert(!spec_contains_byte(key, 0x0A));
        } else if j == key.len() {
            assert(line[j] == 0x20);
        } else {
            assert(line[j] == value[j - key.len() - 1]);
            assert(!spec_contains_byte(value, 0x0A));
        }
    }
}

/// No serialized line holds a newline, given a valid record.
proof fn lemma_md_line_free(m: GitChangesetMetadata, i: int)
    requires
        spec_md_valid(m),
        0 <= i < spec_md_lines(m).len(),
    ensures
        !spec_contains_byte(spec_md_lines(m)[i], 0x0A),
{
    let line = spec_md_lines(m)[i];
    lemma_hex_digits_not_nl(m.changeset_id@);
    lemma_hex_digits_not_nl(m.manifest_id@);
    assert(!spec_contains_byte(kw_changeset(), 0x0A)) by {
        assert forall|j: int| 0 <= j < kw_changeset().len() implies kw_changeset()[j] != 0x0A by {
        }
    }
    assert(!spec_contains_byte(kw_manifest(), 0x0A)) by {
        assert forall|j: int| 0 <= j < kw_manifest().len() implies kw_manifest()[j] != 0x0A by {
        }
    }
    assert(!spec_contains_byte(kw_author(), 0x0A)) by {
        assert forall|j: int| 0 <= j < kw_author().len() implies kw_author()[j] != 0x0A by {
        }
    }
    assert(!spec_contains_byte(kw_extra(), 0x0A)) by {
        assert forall|j: int| 0 <= j < kw_extra().len() implies kw_extra()[j] != 0x0A by {
        }
    }
    assert(!spec_contains_byte(kw_files(), 0x0A)) by {
        assert forall|j: int| 0 <= j < kw_files().len() implies kw_files()[j] != 0x0A by {
        }
    }
    assert(!spec_contains_byte(kw_patch(), 0x0A)) by {
        assert forall|j: int| 0 <= j < kw_patch().len() implies kw_patch()[j] != 0x0A by {
        }
    }
    assert(!spec_contains_byte(spec_hex(m.changeset_id@), 0x0A));
    assert(!spec_contains_byte(spec_hex(m.manifest_id@), 0x0A));
    lemma_keyed_line_nl_free(kw_changeset(), spec_hex(m.changeset_id@));
    lemma_keyed_line_nl_free(kw_manifest(), spec_hex(m.manifest_id@));
    match m.author {
        Some(a) => {
            lemma_keyed_line_nl_free(kw_author(), a@);
        },
        None => {
        },
    }
    match m.extra {
        Some(e) => {
            lemma_keyed_line_nl_free(kw_extra(), e@);
        },
        None => {
        },
    }
    match m.files {
        Some(f) => {
            lemma_keyed_line_nl_free(kw_files(), f@);
        },
        None => {
        },
    }
    match m.patch {
        Some(p) => {
            lemma_keyed_line_nl_free(kw_patch(), p@);
        },
        None => {
        },
    }
}

/// Every byte of a hex rendering is a digit or lowercase letter.
proof fn lemma_hex_digits_not_nl(s: Seq<u8>)
    ensures
        forall|j: int| 0 <= j < spec_hex(s).len() ==> #[trigger] spec_hex(s)[j] != 0x0A,
    decreases s.len(),
{
    if s.len() > 0 {
        lemma_hex_digits_not_nl(s.drop_first());
        assert forall|j: int| 0 <= j < spec_hex(s).len() implies #[trigger] spec_hex(s)[j]
            != 0x0A by {
            if j >= 2 {
                assert(spec_hex(s)[j] == spec_hex(s.drop_first())[j - 2]);
            }
        }
    }
}

} // verus!
