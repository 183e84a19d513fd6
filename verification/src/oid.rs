//! The dual identifier space: fixed-width hash ids of the foreign revision
//! store (changesets, manifests, files) and of the native object store
//! (commits, trees, blobs), typed by entity kind so that ids of different
//! kinds are not interchangeable.

use vstd::prelude::*;

use crate::bytes::{
    lemma_hex_digit_roundtrip, lemma_hex_index, spec_hex, spec_hex_digit, spec_hex_value,
};

verus! {

/// Width in bytes of every id in either namespace.
pub const OID_LEN: usize = 20;

/// Byte-wise equality of two raw ids.
pub fn oid_raw_eq(a: &[u8; 20], b: &[u8; 20]) -> (r: bool)
    ensures
        r == (a@ == b@),
{
    let mut i: usize = 0;
    while i < 20
        invariant
            0 <= i <= 20,
            a@.len() == 20,
            b@.len() == 20,
            forall|j: int| 0 <= j < i ==> a@[j] == b@[j],
        decreases 20 - i,
    {
        if a[i] != b[i] {
            proof {
                assert(a@[i as int] != b@[i as int]);
            }
            return false;
        }
        i = i + 1;
    }
    proof {
        assert(a@ =~= b@);
    }
    true
}

/// Lowercase hex of a raw id: forty digits.
pub fn oid_raw_hex(a: &[u8; 20]) -> (r: Vec<u8>)
    ensures
        r@ == spec_hex(a@),
{
    crate::bytes::format_hex(a.as_slice())
}

/// Whether `s` is a well-formed forty-digit hex spelling of some id, and the
/// id it spells.
pub open spec fn spec_parse_oid(s: Seq<u8>) -> Option<Seq<u8>> {
    if s.len() == 40 && (forall|j: int| 0 <= j < 40 ==> #[trigger] spec_hex_value(s[j]) is Some) {
        Some(
            Seq::new(
                20,
                |j: int| (spec_hex_value(s[2 * j]).unwrap() * 16 + spec_hex_value(
                    s[2 * j + 1],
                ).unwrap()) as u8,
            ),
        )
    } else {
        None
    }
}

/// Parsing the hex spelling of an id recovers it.
pub proof fn lemma_oid_hex_roundtrip(a: Seq<u8>)
    requires
        a.len() == 20,
    ensures
        spec_parse_oid(spec_hex(a)) == Some(a),
{
    let s = spec_hex(a);
    lemma_hex_index(a);
    assert forall|j: int| 0 <= j < 40 implies #[trigger] spec_hex_value(s[j]) is Some by {
        let k = j / 2;
        vstd::arithmetic::div_mod::lemma_fundamental_div_mod(j, 2);
        if j % 2 == 0 {
            assert(s[2 * k] == spec_hex_digit(a[k] / 16));
            lemma_hex_digit_roundtrip(a[k] / 16);
        } else {
            assert(0 <= k < 20);
            assert(s[2 * k] == spec_hex_digit(a[k] / 16));
            assert(s[2 * k + 1] == spec_hex_digit(a[k] % 16));
            lemma_hex_digit_roundtrip(a[k] % 16);
        }
    }
    let parsed = spec_parse_oid(s).unwrap();
    assert forall|j: int| 0 <= j < 20 implies parsed[j] == a[j] by {
        assert(s[2 * j] == spec_hex_digit(a[j] / 16));
        assert(s[2 * j + 1] == spec_hex_digit(a[j] % 16));
        lemma_hex_digit_roundtrip(a[j] / 16);
        lemma_hex_digit_roundtrip(a[j] % 16);
        vstd::arithmetic::div_mod::lemma_fundamental_div_mod(a[j] as int, 16);
    }
    assert(parsed =~= a);
}

/// Parse a forty-digit hex spelling into a raw id.
pub fn oid_raw_parse(s: &[u8]) -> (r: Option<[u8; 20]>)
    ensures
        match r {
            Some(a) => spec_parse_oid(s@) == Some(a@),
            None => spec_parse_oid(s@) is None,
        },
{
    if s.len() != 40 {
        return None;
    }
    let mut out: [u8; 20] = [0; 20];
    let mut j: usize = 0;
    while j < 20
        invariant
            0 <= j <= 20,
            s@.len() == 40,
            out@.len() == 20,
            forall|k: int| 0 <= k < 2 * j ==> #[trigger] spec_hex_value(s@[k]) is Some,
            forall|k: int| 0 <= k < j ==> #[trigger] out@[k] == (spec_hex_value(
                s@[2 * k],
            ).unwrap() * 16 + spec_hex_value(s@[2 * k + 1]).unwrap()) as u8,
        decreases 20 - j,
    {
        let hi = match crate::bytes::hex_value(s[2 * j]) {
            Some(v) => v,
            None => {
                return None;
            },
        };
        let lo = match crate::bytes::hex_value(s[2 * j + 1]) {
            Some(v) => v,
            None => {
                return None;
            },
        };
        out[j] = hi * 16 + lo;
        j = j + 1;
    }
    proof {
        let parsed = spec_parse_oid(s@).unwrap();
        assert(out@ =~= parsed);
    }
    Some(out)
}

/// An id of a foreign changeset.
#[derive(Clone, Copy, Debug)]
pub struct HgChangesetId {
    pub raw: [u8; 20],
}

/// An id of a foreign manifest.
#[derive(Clone, Copy, Debug)]
pub struct HgManifestId {
    pub raw: [u8; 20],
}

/// An id of one revision of a foreign file.
#[derive(Clone, Copy, Debug)]
pub struct HgFileId {
    pub raw: [u8; 20],
}

/// An id of a native commit.
#[derive(Clone, Copy, Debug)]
pub struct CommitId {
    pub raw: [u8; 20],
}

/// An id of a native tree.
#[derive(Clone, Copy, Debug)]
pub struct TreeId {
    pub raw: [u8; 20],
}

/// An id of a native blob.
#[derive(Clone, Copy, Debug)]
pub struct BlobId {
    pub raw: [u8; 20],
}

/// The native commit standing for a foreign changeset.
#[derive(Clone, Copy, Debug)]
pub struct GitChangesetId {
    pub id: CommitId,
}

/// The native commit whose tree mirrors a foreign manifest.
#[derive(Clone, Copy, Debug)]
pub struct GitManifestId {
    pub id: CommitId,
}

/// The native blob holding one revision of a foreign file's contents.
#[derive(Clone, Copy, Debug)]
pub struct GitFileId {
    pub id: BlobId,
}

/// The native blob holding a changeset's metadata side-record.
#[derive(Clone, Copy, Debug)]
pub struct GitChangesetMetadataId {
    pub id: BlobId,
}

/// The native blob holding a foreign file's metadata preamble.
#[derive(Clone, Copy, Debug)]
pub struct GitFileMetadataId {
    pub id: BlobId,
}

impl View for HgChangesetId {
    type V = Seq<u8>;

    open spec fn view(&self) -> Seq<u8> {
        self.raw@
    }
}

impl View for HgManifestId {
    type V = Seq<u8>;

    open spec fn view(&self) -> Seq<u8> {
        self.raw@
    }
}

impl View for HgFileId {
    type V = Seq<u8>;

    open spec fn view(&self) -> Seq<u8> {
        self.raw@
    }
}

impl View for CommitId {
    type V = Seq<u8>;

    open spec fn view(&self) -> Seq<u8> {
        self.raw@
    }
}

impl View for TreeId {
    type V = Seq<u8>;

    open spec fn view(&self) -> Seq<u8> {
        self.raw@
    }
}

impl View for BlobId {
    type V = Seq<u8>;

    open spec fn view(&self) -> Seq<u8> {
        self.raw@
    }
}

impl View for GitChangesetId {
    type V = Seq<u8>;

    open spec fn view(&self) -> Seq<u8> {
        self.id@
    }
}

impl View for GitManifestId {
    type V = Seq<u8>;

    open spec fn view(&self) -> Seq<u8> {
        self.id@
    }
}

impl View for GitFileId {
    type V = Seq<u8>;

    open spec fn view(&self) -> Seq<u8> {
        self.id@
    }
}

impl View for GitChangesetMetadataId {
    type V = Seq<u8>;

    open spec fn view(&self) -> Seq<u8> {
        self.id@
    }
}

impl View for GitFileMetadataId {
    type V = Seq<u8>;

    open spec fn view(&self) -> Seq<u8> {
        self.id@
    }
}

/// The all-zero id of each namespace: the null changeset, the empty manifest.
pub open spec fn spec_null_oid() -> Seq<u8> {
    Seq::new(20, |j: int| 0u8)
}

impl HgChangesetId {
    /// The null id.
    pub fn null() -> (r: Self)
        ensures
            r@ == spec_null_oid(),
    {
        let raw: [u8; 20] = [0; 20];
        proof {
            assert(raw@ =~= spec_null_oid());
        }
        HgChangesetId { raw }
    }

    /// Wrap a raw twenty-byte id.
    pub fn from_raw_bytes(raw: [u8; 20]) -> (r: Self)
        ensures
            r@ == raw@,
    {
        HgChangesetId { raw }
    }

    /// The raw twenty bytes.
    pub fn as_raw_bytes(&self) -> (r: &[u8; 20])
        ensures
            r@ == self@,
    {
        &self.raw
    }

    /// Parse a forty-digit hex spelling.
    pub fn from_bytes(s: &[u8]) -> (r: Option<Self>)
        ensures
            match r {
                Some(id) => spec_parse_oid(s@) == Some(id@),
                None => spec_parse_oid(s@) is None,
            },
    {
        match oid_raw_parse(s) {
            Some(raw) => Some(HgChangesetId { raw }),
            None => None,
        }
    }

    /// The forty-digit lowercase hex spelling.
    pub fn to_hex(&self) -> (r: Vec<u8>)
        ensures
            r@ == spec_hex(self@),
    {
        oid_raw_hex(&self.raw)
    }
}

impl PartialEq for HgChangesetId {
    #[verifier::spinoff_prover]
    fn eq(&self, other: &Self) -> (r: bool) {
        let r = oid_raw_eq(&self.raw, &other.raw);
        proof {
            assert(self@ == self.raw@);
            assert(other@ == other.raw@);
        }
        r
    }
}

impl Eq for HgChangesetId {

}

impl vstd::std_specs::cmp::PartialEqSpecImpl for HgChangesetId {
    open spec fn obeys_eq_spec() -> bool {
        true
    }

    open spec fn eq_spec(&self, other: &Self) -> bool {
        self@ == other@
    }
}

impl HgManifestId {
    /// The null id, which also stands for the empty manifest.
    pub fn null() -> (r: Self)
        ensures
            r@ == spec_null_oid(),
    {
        let raw: [u8; 20] = [0; 20];
        proof {
            assert(raw@ =~= spec_null_oid());
        }
        HgManifestId { raw }
    }

    /// Wrap a raw twenty-byte id.
    pub fn from_raw_bytes(raw: [u8; 20]) -> (r: Self)
        ensures
            r@ == raw@,
    {
        HgManifestId { raw }
    }

    /// The raw twenty bytes.
    pub fn as_raw_bytes(&self) -> (r: &[u8; 20])
        ensures
            r@ == self@,
    {
        &self.raw
    }

    /// Parse a forty-digit hex spelling.
    pub fn from_bytes(s: &[u8]) -> (r: Option<Self>)
        ensures
            match r {
                Some(id) => spec_parse_oid(s@) == Some(id@),
                None => spec_parse_oid(s@) is None,
            },
    {
        match oid_raw_parse(s) {
            Some(raw) => Some(HgManifestId { raw }),
            None => None,
        }
    }

    /// The forty-digit lowercase hex spelling.
    pub fn to_hex(&self) -> (r: Vec<u8>)
        ensures
            r@ == spec_hex(self@),
    {
        oid_raw_hex(&self.raw)
    }
}

impl PartialEq for HgManifestId {
    fn eq(&self, other: &Self) -> (r: bool) {
        oid_raw_eq(&self.raw, &other.raw)
    }
}

impl Eq for HgManifestId {

}

impl vstd::std_specs::cmp::PartialEqSpecImpl for HgManifestId {
    open spec fn obeys_eq_spec() -> bool {
        true
    }

    open spec fn eq_spec(&self, other: &Self) -> bool {
        self@ == other@
    }
}

impl HgFileId {
    /// The null id.
    pub fn null() -> (r: Self)
        ensures
            r@ == spec_null_oid(),
    {
        let raw: [u8; 20] = [0; 20];
        proof {
            assert(raw@ =~= spec_null_oid());
        }
        HgFileId { raw }
    }

    /// Wrap a raw twenty-byte id.
    pub fn from_raw_bytes(raw: [u8; 20]) -> (r: Self)
        ensures
            r@ == raw@,
    {
        HgFileId { raw }
    }

    /// The raw twenty bytes.
    pub fn as_raw_bytes(&self) -> (r: &[u8; 20])
        ensures
            r@ == self@,
    {
        &self.raw
    }

    /// Parse a forty-digit hex spelling.
    pub fn from_bytes(s: &[u8]) -> (r: Option<Self>)
        ensures
            match r {
                Some(id) => spec_parse_oid(s@) == Some(id@),
                None => spec_parse_oid(s@) is None,
            },
    {
        match oid_raw_parse(s) {
            Some(raw) => Some(HgFileId { raw }),
            None => None,
        }
    }

    /// The forty-digit lowercase hex spelling.
    pub fn to_hex(&self) -> (r: Vec<u8>)
        ensures
            r@ == spec_hex(self@),
    {
        oid_raw_hex(&self.raw)
    }
}

impl PartialEq for HgFileId {
    fn eq(&self, other: &Self) -> (r: bool) {
        oid_raw_eq(&self.raw, &other.raw)
    }
}

impl Eq for HgFileId {

}

impl vstd::std_specs::cmp::PartialEqSpecImpl for HgFileId {
    open spec fn obeys_eq_spec() -> bool {
        true
    }

    open spec fn eq_spec(&self, other: &Self) -> bool {
        self@ == other@
    }
}

impl CommitId {
    /// The null id.
    pub fn null() -> (r: Self)
        ensures
            r@ == spec_null_oid(),
    {
        let raw: [u8; 20] = [0; 20];
        proof {
            assert(raw@ =~= spec_null_oid());
        }
        CommitId { raw }
    }

    /// Wrap a raw twenty-byte id.
    pub fn from_raw_bytes(raw: [u8; 20]) -> (r: Self)
        ensures
            r@ == raw@,
    {
        CommitId { raw }
    }

    /// The raw twenty bytes.
    pub fn as_raw_bytes(&self) -> (r: &[u8; 20])
        ensures
            r@ == self@,
    {
        &self.raw
    }

    /// Parse a forty-digit hex spelling.
    pub fn from_bytes(s: &[u8]) -> (r: Option<Self>)
        ensures
            match r {
                Some(id) => spec_parse_oid(s@) == Some(id@),
                None => spec_parse_oid(s@) is None,
            },
    {
        match oid_raw_parse(s) {
            Some(raw) => Some(CommitId { raw }),
            None => None,
        }
    }

    /// The forty-digit lowercase hex spelling.
    pub fn to_hex(&self) -> (r: Vec<u8>)
        ensures
            r@ == spec_hex(self@),
    {
        oid_raw_hex(&self.raw)
    }
}

impl PartialEq for CommitId {
    fn eq(&self, other: &Self) -> (r: bool) {
        oid_raw_eq(&self.raw, &other.raw)
    }
}

impl Eq for CommitId {

}

impl vstd::std_specs::cmp::PartialEqSpecImpl for CommitId {
    open spec fn obeys_eq_spec() -> bool {
        true
    }

    open spec fn eq_spec(&self, other: &Self) -> bool {
        self@ == other@
    }
}

impl TreeId {
    /// Wrap a raw twenty-byte id.
    pub fn from_raw_bytes(raw: [u8; 20]) -> (r: Self)
        ensures
            r@ == raw@,
    {
        TreeId { raw }
    }

    /// The raw twenty bytes.
    pub fn as_raw_bytes(&self) -> (r: &[u8; 20])
        ensures
            r@ == self@,
    {
        &self.raw
    }

    /// Parse a forty-digit hex spelling.
    pub fn from_bytes(s: &[u8]) -> (r: Option<Self>)
        ensures
            match r {
                Some(id) => spec_parse_oid(s@) == Some(id@),
                None => spec_parse_oid(s@) is None,
            },
    {
        match oid_raw_parse(s) {
            Some(raw) => Some(TreeId { raw }),
            None => None,
        }
    }

    /// The forty-digit lowercase hex spelling.
    pub fn to_hex(&self) -> (r: Vec<u8>)
        ensures
            r@ == spec_hex(self@),
    {
        oid_raw_hex(&self.raw)
    }
}

impl PartialEq for TreeId {
    fn eq(&self, other: &Self) -> (r: bool) {
        oid_raw_eq(&self.raw, &other.raw)
    }
}

impl Eq for TreeId {

}

impl vstd::std_specs::cmp::PartialEqSpecImpl for TreeId {
    open spec fn obeys_eq_spec() -> bool {
        true
    }

    open spec fn eq_spec(&self, other: &Self) -> bool {
        self@ == other@
    }
}

impl BlobId {
    /// Wrap a raw twenty-byte id.
    pub fn from_raw_bytes(raw: [u8; 20]) -> (r: Self)
        ensures
            r@ == raw@,
    {
        BlobId { raw }
    }

    /// The raw twenty bytes.
    pub fn as_raw_bytes(&self) -> (r: &[u8; 20])
        ensures
            r@ == self@,
    {
        &self.raw
    }

    /// Parse a forty-digit hex spelling.
    pub fn from_bytes(s: &[u8]) -> (r: Option<Self>)
        ensures
            match r {
                Some(id) => spec_parse_oid(s@) == Some(id@),
                None => spec_parse_oid(s@) is None,
            },
    {
        match oid_raw_parse(s) {
            Some(raw) => Some(BlobId { raw }),
            None => None,
        }
    }

    /// The forty-digit lowercase hex spelling.
    pub fn to_hex(&self) -> (r: Vec<u8>)
        ensures
            r@ == spec_hex(self@),
    {
        oid_raw_hex(&self.raw)
    }
}

impl PartialEq for BlobId {
    fn eq(&self, other: &Self) -> (r: bool) {
        oid_raw_eq(&self.raw, &other.raw)
    }
}

impl Eq for BlobId {

}

impl vstd::std_specs::cmp::PartialEqSpecImpl for BlobId {
    open spec fn obeys_eq_spec() -> bool {
        true
    }

    open spec fn eq_spec(&self, other: &Self) -> bool {
        self@ == other@
    }
}

impl GitChangesetId {
    /// Wrap a commit id.
    pub fn from_commit(id: CommitId) -> (r: Self)
        ensures
            r@ == id@,
    {
        GitChangesetId { id }
    }

    /// The forty-digit lowercase hex spelling.
    pub fn to_hex(&self) -> (r: Vec<u8>)
        ensures
            r@ == spec_hex(self@),
    {
        self.id.to_hex()
    }
}

impl PartialEq for GitChangesetId {
    fn eq(&self, other: &Self) -> (r: bool) {
        self.id == other.id
    }
}

impl Eq for GitChangesetId {

}

impl vstd::std_specs::cmp::PartialEqSpecImpl for GitChangesetId {
    open spec fn obeys_eq_spec() -> bool {
        true
    }

    open spec fn eq_spec(&self, other: &Self) -> bool {
        self@ == other@
    }
}

impl GitManifestId {
    /// Wrap a commit id.
    pub fn from_commit(id: CommitId) -> (r: Self)
        ensures
            r@ == id@,
    {
        GitManifestId { id }
    }
}

impl GitFileId {
    /// Wrap a blob id.
    pub fn from_blob(id: BlobId) -> (r: Self)
        ensures
            r@ == id@,
    {
        GitFileId { id }
    }
}

impl GitChangesetMetadataId {
    /// Wrap a blob id.
    pub fn from_blob(id: BlobId) -> (r: Self)
        ensures
            r@ == id@,
    {
        GitChangesetMetadataId { id }
    }
}

impl GitFileMetadataId {
    /// Wrap a blob id.
    pub fn from_blob(id: BlobId) -> (r: Self)
        ensures
            r@ == id@,
    {
        GitFileMetadataId { id }
    }
}

} // verus!
