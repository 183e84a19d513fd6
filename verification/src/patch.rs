//! Byte-range patches: ordered `(start, end, replacement)` triples over a
//! reference buffer, their on-disk encoding (decimal offsets and
//! percent-encoded bytes, comma-separated, NUL-joined), their application,
//! and the prefix/suffix-trimmed diff that produces them.

use vstd::prelude::*;

use crate::bytes::{
    append_bytes, find_byte, lemma_decimal_roundtrip, lemma_find_first, lemma_join_push,
    lemma_split_join, parse_decimal, spec_contains_byte, spec_decimal, spec_find_byte, spec_join,
    spec_parse_decimal, spec_split,
};
use crate::percent::{
    lemma_percent_encode_free, lemma_percent_roundtrip, percent_decode_bytes,
    percent_encode_bytes, spec_percent_decode, spec_percent_encode,
};

verus! {

/// One replacement: substitute `data` for bytes `[start, end)` of the
/// reference.
#[derive(Debug)]
pub struct PatchInfo {
    pub start: usize,
    pub end: usize,
    pub data: Vec<u8>,
}

impl View for PatchInfo {
    type V = (int, int, Seq<u8>);

    open spec fn view(&self) -> (int, int, Seq<u8>) {
        (self.start as int, self.end as int, self.data@)
    }
}

/// The views of a sequence of hunks.
pub open spec fn hunks_view(hs: Seq<PatchInfo>) -> Seq<(int, int, Seq<u8>)> {
    hs.map_values(|h: PatchInfo| h@)
}

/// Applying hunks in order: for each, copy the gap since the previous end
/// verbatim, then the replacement; a hunk starting before the previous end or
/// beyond the reference is malformed, as is a final end beyond the reference.
pub open spec fn spec_apply_rec(
    reference: Seq<u8>,
    hunks: Seq<(int, int, Seq<u8>)>,
    last_end: int,
    acc: Seq<u8>,
) -> Option<Seq<u8>>
    decreases hunks.len(),
{
    if hunks.len() == 0 {
        if 0 <= last_end <= reference.len() {
            Some(acc + reference.skip(last_end))
        } else {
            None
        }
    } else {
        let h = hunks[0];
        if h.0 > reference.len() || h.0 < last_end || last_end < 0 {
            None
        } else {
            spec_apply_rec(
                reference,
                hunks.drop_first(),
                h.1,
                acc + reference.subrange(last_end, h.0) + h.2,
            )
        }
    }
}

/// The bytes produced by applying `hunks` to `reference`, if well formed.
pub open spec fn spec_apply(reference: Seq<u8>, hunks: Seq<(int, int, Seq<u8>)>) -> Option<
    Seq<u8>,
> {
    spec_apply_rec(reference, hunks, 0, Seq::empty())
}

/// Apply hunks to a reference buffer; `None` on a malformed hunk.
pub fn apply_hunks(reference: &[u8], hunks: &Vec<PatchInfo>) -> (r: Option<Vec<u8>>)
    ensures
        match r {
            Some(out) => spec_apply(reference@, hunks_view(hunks@)) == Some(out@),
            None => spec_apply(reference@, hunks_view(hunks@)) is None,
        },
{
    let ghost hv = hunks_view(hunks@);
    let mut out: Vec<u8> = Vec::new();
    let mut last_end: usize = 0;
    let mut i: usize = 0;
    proof {
        assert(hv.skip(0) =~= hv);
        assert(out@ =~= Seq::<u8>::empty());
    }
    while i < hunks.len()
        invariant
            0 <= i <= hunks@.len(),
            hv == hunks_view(hunks@),
            0 <= last_end,
            spec_apply(reference@, hv) == spec_apply_rec(
                reference@,
                hv.skip(i as int),
                last_end as int,
                out@,
            ),
        decreases hunks@.len() - i,
    {
        let start = hunks[i].start;
        let end = hunks[i].end;
        proof {
            assert(hv.skip(i as int)[0] == hv[i as int]);
            assert(hv[i as int] == hunks@[i as int]@);
            assert(hv.skip(i as int).drop_first() =~= hv.skip(i + 1));
        }
        if start > reference.len() || start < last_end {
            return None;
        }
        let ghost prev = out@;
        append_bytes(&mut out, vstd::slice::slice_subrange(reference, last_end, start));
        append_bytes(&mut out, hunks[i].data.as_slice());
        proof {
            assert(out@ =~= prev + reference@.subrange(last_end as int, start as int)
                + hunks@[i as int].data@);
        }
        last_end = end;
        i = i + 1;
    }
    proof {
        assert(hv.skip(hunks@.len() as int) =~= Seq::<(int, int, Seq<u8>)>::empty());
    }
    if last_end > reference.len() {
        return None;
    }
    append_bytes(&mut out, vstd::slice::slice_subrange(reference, last_end, reference.len()));
    proof {
        assert(reference@.subrange(last_end as int, reference@.len() as int) =~= reference@.skip(
            last_end as int,
        ));
    }
    Some(out)
}

/// The encoding of one hunk: `start ',' end ',' percent-encoded data`.
pub open spec fn spec_hunk_bytes(h: (int, int, Seq<u8>)) -> Seq<u8> {
    spec_decimal(h.0 as nat) + seq![0x2Cu8] + spec_decimal(h.1 as nat) + seq![0x2Cu8]
        + spec_percent_encode(h.2)
}

/// The encoding of a patch: hunks joined by NUL.
pub open spec fn spec_patch_bytes(hs: Seq<(int, int, Seq<u8>)>) -> Seq<u8> {
    spec_join(hs.map_values(|h: (int, int, Seq<u8>)| spec_hunk_bytes(h)), 0)
}

/// Parsing one encoded hunk: two decimal fields up to the first two commas,
/// then the percent-decoded remainder.
pub open spec fn spec_parse_hunk(part: Seq<u8>) -> Option<(int, int, Seq<u8>)> {
    match spec_find_byte(part, 0x2C, 0) {
        None => None,
        Some(c1) => match spec_find_byte(part, 0x2C, c1 + 1) {
            None => None,
            Some(c2) => match (spec_parse_decimal(part.take(c1)), spec_parse_decimal(
                part.subrange(c1 + 1, c2),
            )) {
                (Some(s), Some(e)) => Some(
                    (s as int, e as int, spec_percent_decode(part.skip(c2 + 1))),
                ),
                _ => None,
            },
        },
    }
}

/// Parsing a sequence of encoded hunks; any malformed hunk fails the whole
/// parse.
pub open spec fn spec_parse_hunks(parts: Seq<Seq<u8>>) -> Option<Seq<(int, int, Seq<u8>)>>
    decreases parts.len(),
{
    if parts.len() == 0 {
        Some(Seq::empty())
    } else {
        match (spec_parse_hunk(parts[0]), spec_parse_hunks(parts.drop_first())) {
            (Some(h), Some(rest)) => Some(seq![h] + rest),
            _ => None,
        }
    }
}

/// The hunks an encoded patch denotes.
pub open spec fn spec_parse_patch(bytes: Seq<u8>) -> Option<Seq<(int, int, Seq<u8>)>> {
    spec_parse_hunks(spec_split(bytes, 0))
}

/// An encoded patch, as stored in a metadata record.
#[derive(Debug)]
pub struct GitChangesetPatch(pub Vec<u8>);

impl View for GitChangesetPatch {
    type V = Seq<u8>;

    open spec fn view(&self) -> Seq<u8> {
        self.0@
    }
}

/// Parse one encoded hunk.
fn parse_hunk(part: &[u8]) -> (r: Option<PatchInfo>)
    ensures
        match r {
            Some(h) => spec_parse_hunk(part@) == Some(h@),
            None => spec_parse_hunk(part@) is None,
        },
{
    let c1 = match find_byte(part, 0x2C) {
        Some(c) => c,
        None => {
            return None;
        },
    };
    let plen = part.len();
    proof {
        crate::bytes::lemma_find_byte_props(part@, 0x2C, 0);
        assert(c1 < plen);
    }
    let rest = vstd::slice::slice_subrange(part, c1 + 1, plen);
    let rlen = rest.len();
    let c2 = match find_byte(rest, 0x2C) {
        Some(c) => c,
        None => {
            proof {
                lemma_find_offset(part@, 0x2C, c1 as int);
            }
            return None;
        },
    };
    proof {
        crate::bytes::lemma_find_byte_props(rest@, 0x2C, 0);
        assert(c2 < rlen);
    }
    proof {
        lemma_find_offset(part@, 0x2C, c1 as int);
    }
    let start = match parse_decimal(vstd::slice::slice_subrange(part, 0, c1)) {
        Some(v) => v,
        None => {
            proof {
                assert(part@.subrange(0, c1 as int) =~= part@.take(c1 as int));
            }
            return None;
        },
    };
    let end = match parse_decimal(vstd::slice::slice_subrange(rest, 0, c2)) {
        Some(v) => v,
        None => {
            proof {
                assert(rest@.subrange(0, c2 as int) =~= part@.subrange(
                    c1 + 1,
                    c1 + 1 + c2,
                ));
            }
            return None;
        },
    };
    let data = percent_decode_bytes(vstd::slice::slice_subrange(rest, c2 + 1, rest.len()));
    proof {
        assert(part@.subrange(0, c1 as int) =~= part@.take(c1 as int));
        assert(rest@.subrange(0, c2 as int) =~= part@.subrange(c1 + 1, c1 + 1 + c2));
        assert(rest@.subrange(c2 + 1, rest@.len() as int) =~= part@.skip(c1 + 1 + c2 + 1));
    }
    Some(PatchInfo { start, end, data })
}

/// The first separator at or past `c1 + 1` of `part`, seen from the suffix.
proof fn lemma_find_offset(part: Seq<u8>, b: u8, c1: int)
    requires
        0 <= c1 <= part.len(),
    ensures
        match spec_find_byte(part.skip(c1 + 1), b, 0) {
            Some(c) => spec_find_byte(part, b, c1 + 1) == Some(c1 + 1 + c),
            None => spec_find_byte(part, b, c1 + 1) is None,
        } || c1 == part.len(),
{
    if c1 < part.len() {
        lemma_find_skip(part, b, c1 + 1);
    }
}

/// Searching from `from` equals searching the suffix from its start.
proof fn lemma_find_skip(s: Seq<u8>, b: u8, from: int)
    requires
        0 <= from <= s.len(),
    ensures
        match spec_find_byte(s.skip(from), b, 0) {
            Some(c) => spec_find_byte(s, b, from) == Some(from + c),
            None => spec_find_byte(s, b, from) is None,
        },
{
    let tail = s.skip(from);
    crate::bytes::lemma_find_byte_props(tail, b, 0);
    crate::bytes::lemma_find_byte_props(s, b, from);
    match spec_find_byte(tail, b, 0) {
        Some(c) => {
            assert(tail[c] == s[from + c]);
            assert forall|j: int| from <= j < from + c implies s[j] != b by {
                assert(tail[j - from] == s[j]);
            }
            match spec_find_byte(s, b, from) {
                Some(i) => {
                    if i < from + c {
                        assert(tail[i - from] == s[i]);
                    }
                    if from + c < i {
                        assert(s[from + c] != b);
                    }
                },
                None => {
                    assert(s[from + c] != b);
                },
            }
        },
        None => {
            match spec_find_byte(s, b, from) {
                Some(i) => {
                    assert(tail[i - from] == s[i]);
                },
                None => {
                },
            }
        },
    }
}

impl GitChangesetPatch {
    /// Wrap encoded patch bytes.
    pub fn from_bytes(bytes: Vec<u8>) -> (r: Self)
        ensures
            r@ == bytes@,
    {
        GitChangesetPatch(bytes)
    }

    /// Parse the encoded hunks, in order.
    pub fn iter(&self) -> (r: Option<Vec<PatchInfo>>)
        ensures
            match r {
                Some(hs) => spec_parse_patch(self@) == Some(hunks_view(hs@)),
                None => spec_parse_patch(self@) is None,
            },
    {
        let parts = crate::bytes::split_byte(self.0.as_slice(), 0);
        let mut out: Vec<PatchInfo> = Vec::new();
        let mut i: usize = 0;
        proof {
            assert(crate::bytes::views(parts@).skip(0) =~= crate::bytes::views(parts@));
            assert(hunks_view(out@) =~= Seq::<(int, int, Seq<u8>)>::empty());
        }
        while i < parts.len()
            invariant
                0 <= i <= parts@.len(),
                crate::bytes::views(parts@) == spec_split(self@, 0),
                match spec_parse_hunks(crate::bytes::views(parts@).skip(i as int)) {
                    Some(rest) => spec_parse_patch(self@) == Some(hunks_view(out@) + rest),
                    None => spec_parse_patch(self@) is None,
                },
            decreases parts@.len() - i,
        {
            proof {
                assert(crate::bytes::views(parts@).skip(i as int)[0] == parts@[i as int]@);
                assert(crate::bytes::views(parts@).skip(i as int).drop_first()
                    =~= crate::bytes::views(parts@).skip(i + 1));
            }
            let h = match parse_hunk(parts[i].as_slice()) {
                Some(h) => h,
                None => {
                    return None;
                },
            };
            proof {
                let hv = h@;
                assert(hunks_view(out@.push(h)) =~= hunks_view(out@) + seq![hv]);
                if spec_parse_hunks(crate::bytes::views(parts@).skip(i + 1)) is Some {
                    let rest = spec_parse_hunks(crate::bytes::views(parts@).skip(i + 1)).unwrap();
                    assert(hunks_view(out@) + (seq![hv] + rest) =~= (hunks_view(out@) + seq![hv])
                        + rest);
                }
            }
            out.push(h);
            i = i + 1;
        }
        proof {
            assert(crate::bytes::views(parts@).skip(parts@.len() as int) =~= Seq::<
                Seq<u8>,
            >::empty());
            assert(hunks_view(out@) + Seq::<(int, int, Seq<u8>)>::empty() =~= hunks_view(out@));
        }
        Some(out)
    }

    /// Apply the encoded patch to `input`; `None` on a malformed encoding or
    /// hunk.
    pub fn apply(&self, input: &[u8]) -> (r: Option<Vec<u8>>)
        ensures
            match spec_parse_patch(self@) {
                None => r is None,
                Some(hs) => match spec_apply(input@, hs) {
                    Some(out) => r matches Some(v) && v@ == out,
                    None => r is None,
                },
            },
    {
        let hunks = match self.iter() {
            Some(hs) => hs,
            None => {
                return None;
            },
        };
        apply_hunks(input, &hunks)
    }

    /// Encode hunks: decimal offsets, percent-encoded data, NUL-joined.
    pub fn from_patch_info(hunks: &Vec<PatchInfo>) -> (r: Vec<u8>)
        ensures
            r@ == spec_patch_bytes(hunks_view(hunks@)),
    {
        let ghost hv = hunks_view(hunks@);
        let ghost parts = hv.map_values(|h: (int, int, Seq<u8>)| spec_hunk_bytes(h));
        let mut out: Vec<u8> = Vec::new();
        let mut i: usize = 0;
        proof {
            assert(parts.take(0) =~= Seq::<Seq<u8>>::empty());
            assert(out@ =~= spec_join(parts.take(0), 0));
        }
        while i < hunks.len()
            invariant
                0 <= i <= hunks@.len(),
                hv == hunks_view(hunks@),
                parts == hv.map_values(|h: (int, int, Seq<u8>)| spec_hunk_bytes(h)),
                out@ == spec_join(parts.take(i as int), 0),
            decreases hunks@.len() - i,
        {
            if i > 0 {
                out.push(0);
            }
            let ghost before = out@;
            let start_bytes = crate::bytes::format_decimal(hunks[i].start);
            append_bytes(&mut out, start_bytes.as_slice());
            out.push(0x2C);
            let end_bytes = crate::bytes::format_decimal(hunks[i].end);
            append_bytes(&mut out, end_bytes.as_slice());
            out.push(0x2C);
            let enc = percent_encode_bytes(hunks[i].data.as_slice());
            append_bytes(&mut out, enc.as_slice());
            proof {
                assert(parts[i as int] == spec_hunk_bytes(hv[i as int]));
                assert(hv[i as int] == hunks@[i as int]@);
                assert(out@ =~= before + spec_hunk_bytes(hv[i as int]));
                assert(parts.take(i + 1) =~= parts.take(i as int).push(parts[i as int]));
                if i > 0 {
                    lemma_join_push(parts.take(i as int), parts[i as int], 0);
                    assert(out@ =~= spec_join(parts.take(i + 1), 0));
                } else {
                    assert(parts.take(1) =~= seq![parts[0]]);
                    assert(out@ =~= spec_join(parts.take(1), 0));
                }
            }
            i = i + 1;
        }
        proof {
            assert(parts.take(hunks@.len() as int) =~= parts);
        }
        out
    }
}

/// Decoding an encoded patch recovers its hunks, offsets and data alike.
pub proof fn lemma_patch_roundtrip(hs: Seq<(int, int, Seq<u8>)>)
    requires
        hs.len() > 0,
        forall|i: int| 0 <= i < hs.len() ==> 0 <= (#[trigger] hs[i]).0 <= usize::MAX && 0 <= hs[
            i
        ].1 <= usize::MAX,
    ensures
        spec_parse_patch(spec_patch_bytes(hs)) == Some(hs),
{
    let parts = hs.map_values(|h: (int, int, Seq<u8>)| spec_hunk_bytes(h));
    assert forall|i: int| 0 <= i < parts.len() implies !spec_contains_byte(
        #[trigger] parts[i],
        0,
    ) by {
        lemma_hunk_bytes_free(hs[i]);
    }
    lemma_split_join(parts, 0);
    assert forall|i: int| 0 <= i < parts.len() implies spec_parse_hunk(#[trigger] parts[i])
        == Some(hs[i]) by {
        lemma_parse_hunk_bytes(hs[i]);
    }
    lemma_parse_hunks_pointwise(hs, parts, 0);
    assert(parts.skip(0) =~= parts);
    assert(hs.skip(0) =~= hs);
}

/// Hunk encodings hold no NUL byte.
proof fn lemma_hunk_bytes_free(h: (int, int, Seq<u8>))
    requires
        0 <= h.0,
        0 <= h.1,
    ensures
        !spec_contains_byte(spec_hunk_bytes(h), 0),
{
    let e = spec_hunk_bytes(h);
    let d0 = spec_decimal(h.0 as nat);
    let d1 = spec_decimal(h.1 as nat);
    let enc = spec_percent_encode(h.2);
    crate::bytes::lemma_decimal_digits_pub(h.0 as nat);
    crate::bytes::lemma_decimal_digits_pub(h.1 as nat);
    lemma_percent_encode_free(h.2);
    assert forall|i: int| 0 <= i < e.len() implies e[i] != 0 by {
        if i < d0.len() {
            assert(e[i] == d0[i]);
        } else if i == d0.len() {
            assert(e[i] == 0x2C);
        } else if i < d0.len() + 1 + d1.len() {
            assert(e[i] == d1[i - d0.len() - 1]);
        } else if i == d0.len() + 1 + d1.len() {
            assert(e[i] == 0x2C);
        } else {
            assert(e[i] == enc[i - d0.len() - 1 - d1.len() - 1]);
            assert(!spec_contains_byte(enc, 0));
        }
    }
}

/// Parsing one hunk's encoding recovers the hunk.
proof fn lemma_parse_hunk_bytes(h: (int, int, Seq<u8>))
    requires
        0 <= h.0 <= usize::MAX,
        0 <= h.1 <= usize::MAX,
    ensures
        spec_parse_hunk(spec_hunk_bytes(h)) == Some(h),
{
    let e = spec_hunk_bytes(h);
    let d0 = spec_decimal(h.0 as nat);
    let d1 = spec_decimal(h.1 as nat);
    let enc = spec_percent_encode(h.2);
    crate::bytes::lemma_decimal_digits_pub(h.0 as nat);
    crate::bytes::lemma_decimal_digits_pub(h.1 as nat);
    lemma_percent_encode_free(h.2);
    // the first comma sits right after the first decimal
    assert forall|j: int| 0 <= j < d0.len() implies e[j] != 0x2C by {
        assert(e[j] == d0[j]);
    }
    assert(e[d0.len() as int] == 0x2C);
    lemma_find_first(e, 0x2C, d0.len() as int);
    let c1 = d0.len() as int;
    // the second comma sits right after the second decimal
    let c2: int = d0.len() as int + 1 + d1.len() as int;
    assert(e[c2] == 0x2C);
    assert forall|j: int| c1 + 1 <= j < c2 implies e[j] != 0x2C by {
        assert(e[j] == d1[j - d0.len() - 1]);
    }
    lemma_find_between(e, 0x2C, c1 + 1, c2);
    assert(e.take(c1) =~= d0);
    assert(e.subrange(c1 + 1, c2) =~= d1);
    assert(e.skip(c2 + 1) =~= enc);
    lemma_decimal_roundtrip(h.0 as usize);
    lemma_decimal_roundtrip(h.1 as usize);
    lemma_percent_roundtrip(h.2);
}

/// If `b` first occurs at `k` at or past `from`, the search from `from`
/// finds it there.
proof fn lemma_find_between(s: Seq<u8>, b: u8, from: int, k: int)
    requires
        0 <= from <= k < s.len(),
        s[k] == b,
        forall|j: int| from <= j < k ==> s[j] != b,
    ensures
        spec_find_byte(s, b, from) == Some(k),
    decreases k - from,
{
    if from < k {
        assert(s[from] != b);
        lemma_find_between(s, b, from + 1, k);
    }
}

/// Hunks whose encodings all parse back parse back as a sequence.
proof fn lemma_parse_hunks_pointwise(hs: Seq<(int, int, Seq<u8>)>, parts: Seq<Seq<u8>>, i: int)
    requires
        0 <= i <= hs.len(),
        parts.len() == hs.len(),
        forall|j: int| 0 <= j < hs.len() ==> spec_parse_hunk(#[trigger] parts[j]) == Some(hs[j]),
    ensures
        spec_parse_hunks(parts.skip(i)) == Some(hs.skip(i)),
    decreases hs.len() - i,
{
    if i == hs.len() {
        assert(parts.skip(i) =~= Seq::<Seq<u8>>::empty());
        assert(hs.skip(i) =~= Seq::<(int, int, Seq<u8>)>::empty());
    } else {
        lemma_parse_hunks_pointwise(hs, parts, i + 1);
        assert(parts.skip(i)[0] == parts[i]);
        assert(parts.skip(i).drop_first() =~= parts.skip(i + 1));
        assert(seq![hs[i]] + hs.skip(i + 1) =~= hs.skip(i));
    }
}

/// The length of the longest common prefix of `a` and `b`.
pub open spec fn spec_common_prefix(a: Seq<u8>, b: Seq<u8>) -> int
    decreases a.len(),
{
    if a.len() == 0 || b.len() == 0 || a[0] != b[0] {
        0
    } else {
        1 + spec_common_prefix(a.drop_first(), b.drop_first())
    }
}

/// The length of the longest common suffix of `a` and `b`.
pub open spec fn spec_common_suffix(a: Seq<u8>, b: Seq<u8>) -> int
    decreases a.len(),
{
    if a.len() == 0 || b.len() == 0 || a.last() != b.last() {
        0
    } else {
        1 + spec_common_suffix(a.drop_last(), b.drop_last())
    }
}

/// The single hunk turning `a` into `b`: the differing middle, with the
/// common leading and trailing runs trimmed; no hunk at all when `a == b`.
pub open spec fn spec_byte_diff(a: Seq<u8>, b: Seq<u8>) -> Seq<(int, int, Seq<u8>)> {
    if a == b {
        Seq::empty()
    } else {
        let p = spec_common_prefix(a, b);
        let smax = if a.len() <= b.len() {
            a.len() - p
        } else {
            b.len() - p
        };
        let s = if spec_common_suffix(a, b) <= smax {
            spec_common_suffix(a, b)
        } else {
            smax
        };
        seq![(p, a.len() - s, b.subrange(p, b.len() - s))]
    }
}

proof fn lemma_common_prefix(a: Seq<u8>, b: Seq<u8>)
    ensures
        0 <= spec_common_prefix(a, b) <= a.len(),
        spec_common_prefix(a, b) <= b.len(),
        forall|i: int| 0 <= i < spec_common_prefix(a, b) ==> a[i] == b[i],
    decreases a.len(),
{
    if a.len() > 0 && b.len() > 0 && a[0] == b[0] {
        lemma_common_prefix(a.drop_first(), b.drop_first());
        assert forall|i: int| 0 <= i < spec_common_prefix(a, b) implies a[i] == b[i] by {
            if i > 0 {
                assert(a.drop_first()[i - 1] == b.drop_first()[i - 1]);
            }
        }
    }
}

proof fn lemma_common_suffix(a: Seq<u8>, b: Seq<u8>)
    ensures
        0 <= spec_common_suffix(a, b) <= a.len(),
        spec_common_suffix(a, b) <= b.len(),
        forall|i: int| 0 <= i < spec_common_suffix(a, b) ==> #[trigger] a[a.len() - 1 - i]
            == b[b.len() - 1 - i],
    decreases a.len(),
{
    if a.len() > 0 && b.len() > 0 && a.last() == b.last() {
        lemma_common_suffix(a.drop_last(), b.drop_last());
        assert forall|i: int| 0 <= i < spec_common_suffix(a, b) implies #[trigger] a[a.len() - 1
            - i] == b[b.len() - 1 - i] by {
            if i > 0 {
                assert(a.drop_last()[a.len() - 2 - (i - 1)] == b.drop_last()[b.len() - 2 - (i
                    - 1)]);
            }
        }
    }
}

/// The diff hunk rebuilds `b` from `a` exactly.
pub proof fn lemma_byte_diff_correct(a: Seq<u8>, b: Seq<u8>)
    ensures
        spec_apply(a, spec_byte_diff(a, b)) == Some(b),
{
    if a == b {
        assert(spec_apply_rec(a, Seq::empty(), 0, Seq::<u8>::empty()) == Some(
            Seq::<u8>::empty() + a.skip(0),
        ));
        assert(Seq::<u8>::empty() + a.skip(0) =~= b);
    } else {
        lemma_common_prefix(a, b);
        lemma_common_suffix(a, b);
        let p = spec_common_prefix(a, b);
        let smax = if a.len() <= b.len() {
            a.len() - p
        } else {
            b.len() - p
        };
        let s = if spec_common_suffix(a, b) <= smax {
            spec_common_suffix(a, b)
        } else {
            smax
        };
        let h = (p, a.len() - s, b.subrange(p, b.len() - s));
        let hs = seq![h];
        assert(hs[0] == h);
        assert(hs.drop_first() =~= Seq::<(int, int, Seq<u8>)>::empty());
        let acc1 = Seq::<u8>::empty() + a.subrange(0, p) + b.subrange(p, b.len() - s);
        assert(spec_apply_rec(a, hs, 0, Seq::empty()) == spec_apply_rec(
            a,
            hs.drop_first(),
            a.len() - s,
            acc1,
        ));
        let out = acc1 + a.skip(a.len() - s);
        assert(out.len() == b.len());
        assert forall|i: int| 0 <= i < out.len() implies out[i] == b[i] by {
            if i < p {
                assert(out[i] == a[i]);
            } else if i < b.len() - s {
                assert(out[i] == b.subrange(p, b.len() - s)[i - p]);
            } else {
                assert(out[i] == a.skip(a.len() - s)[i - (b.len() - s)]);
                assert(a.skip(a.len() - s)[i - (b.len() - s)] == a[a.len() - s + i - (b.len()
                    - s)]);
                let k = b.len() - 1 - i;
                assert(0 <= k < s);
                assert(a[a.len() - 1 - k] == b[b.len() - 1 - k]);
            }
        }
        assert(out =~= b);
    }
}

/// Reconstructing through a chain of two chunks (reference to mid, mid to
/// final) yields the same bytes as one chunk carrying the net edits from the
/// reference straight to the final buffer.
pub proof fn lemma_patch_chain_equivalent(
    reference: Seq<u8>,
    h1: Seq<(int, int, Seq<u8>)>,
    h2: Seq<(int, int, Seq<u8>)>,
    mid: Seq<u8>,
    fin: Seq<u8>,
)
    requires
        spec_apply(reference, h1) == Some(mid),
        spec_apply(mid, h2) == Some(fin),
    ensures
        spec_apply(reference, spec_byte_diff(reference, fin)) == Some(fin),
{
    lemma_byte_diff_correct(reference, fin);
}

/// Compute the single-hunk diff turning `a` into `b`.
#[verifier::rlimit(50)]
pub fn byte_diff(a: &[u8], b: &[u8]) -> (r: Vec<PatchInfo>)
    ensures
        hunks_view(r@) == spec_byte_diff(a@, b@),
        spec_apply(a@, hunks_view(r@)) == Some(b@),
        r@.len() == 0 <==> a@ == b@,
{
    proof {
        lemma_byte_diff_correct(a@, b@);
        lemma_common_prefix(a@, b@);
        lemma_common_suffix(a@, b@);
    }
    let mut p: usize = 0;
    let min_len: usize = if a.len() <= b.len() {
        a.len()
    } else {
        b.len()
    };
    proof {
        assert(a@.skip(0) =~= a@);
        assert(b@.skip(0) =~= b@);
    }
    while p < min_len && a[p] == b[p]
        invariant
            0 <= p <= min_len,
            min_len == if a@.len() <= b@.len() {
                a@.len()
            } else {
                b@.len()
            },
            spec_common_prefix(a@, b@) == p + spec_common_prefix(
                a@.skip(p as int),
                b@.skip(p as int),
            ),
        decreases min_len - p,
    {
        proof {
            assert(a@.skip(p as int)[0] == a@[p as int]);
            assert(b@.skip(p as int)[0] == b@[p as int]);
            assert(a@.skip(p as int).drop_first() =~= a@.skip(p + 1));
            assert(b@.skip(p as int).drop_first() =~= b@.skip(p + 1));
        }
        p = p + 1;
    }
    proof {
        if p < min_len {
            assert(a@.skip(p as int)[0] == a@[p as int]);
            assert(b@.skip(p as int)[0] == b@[p as int]);
            assert(spec_common_prefix(a@.skip(p as int), b@.skip(p as int)) == 0);
        } else {
            assert(a@.skip(p as int).len() == 0 || b@.skip(p as int).len() == 0);
            assert(spec_common_prefix(a@.skip(p as int), b@.skip(p as int)) == 0);
        }
        assert(spec_common_prefix(a@, b@) == p);
    }
    let mut s: usize = 0;
    proof {
        assert(a@.take(a@.len() as int) =~= a@);
        assert(b@.take(b@.len() as int) =~= b@);
    }
    while s < min_len && a[a.len() - 1 - s] == b[b.len() - 1 - s]
        invariant
            0 <= s <= min_len,
            min_len == if a@.len() <= b@.len() {
                a@.len()
            } else {
                b@.len()
            },
            spec_common_suffix(a@, b@) == s + spec_common_suffix(
                a@.take(a@.len() - s),
                b@.take(b@.len() - s),
            ),
        decreases min_len - s,
    {
        proof {
            let at = a@.take(a@.len() - s);
            let bt = b@.take(b@.len() - s);
            assert(at.last() == a@[a@.len() - 1 - s]);
            assert(bt.last() == b@[b@.len() - 1 - s]);
            assert(at.drop_last() =~= a@.take(a@.len() - (s + 1)));
            assert(bt.drop_last() =~= b@.take(b@.len() - (s + 1)));
        }
        s = s + 1;
    }
    proof {
        let at = a@.take(a@.len() - s);
        let bt = b@.take(b@.len() - s);
        if s < min_len {
            assert(at.last() == a@[a@.len() - 1 - s]);
            assert(bt.last() == b@[b@.len() - 1 - s]);
            assert(spec_common_suffix(at, bt) == 0);
        } else {
            assert(at.len() == 0 || bt.len() == 0);
            assert(spec_common_suffix(at, bt) == 0);
        }
        assert(spec_common_suffix(a@, b@) == s);
    }
    if p == a.len() && p == b.len() {
        let r: Vec<PatchInfo> = Vec::new();
        proof {
            assert(a@ =~= b@);
            assert(hunks_view(r@) =~= spec_byte_diff(a@, b@));
        }
        return r;
    }
    proof {
        if a@ == b@ {
            assert(spec_common_prefix(a@, b@) == a@.len()) by {
                lemma_prefix_of_equal(a@);
            }
        }
    }
    let smax = min_len - p;
    let strim = if s <= smax {
        s
    } else {
        smax
    };
    let data = vstd::slice::slice_to_vec(vstd::slice::slice_subrange(b, p, b.len() - strim));
    let h = PatchInfo { start: p, end: a.len() - strim, data };
    let mut r: Vec<PatchInfo> = Vec::new();
    r.push(h);
    proof {
        assert(hunks_view(r@) =~= spec_byte_diff(a@, b@));
        lemma_byte_diff_correct(a@, b@);
    }
    r
}

/// Equal buffers share their full length as a common prefix.
proof fn lemma_prefix_of_equal(a: Seq<u8>)
    ensures
        spec_common_prefix(a, a) == a.len(),
    decreases a.len(),
{
    if a.len() > 0 {
        lemma_prefix_of_equal(a.drop_first());
    }
}

} // verus!
