//! The bootstrap decisions of pulling previously published metadata from a
//! remote: which branch names to look for given the remote's address, which
//! advertised ref to fetch, and whether what arrived has the expected shape.

use vstd::prelude::*;

use crate::bytes::{append_bytes, bytes_eq, views};
use crate::oid::CommitId;

verus! {

/// The candidate branches one address suggests, most specific first: for each
/// non-empty path segment, from the last to the first, the segments from
/// there to the end joined by `/`; then the host with the whole path; then
/// `metadata`.
pub open spec fn spec_branch_fold(acc: Seq<Seq<u8>>, parts: Seq<Seq<u8>>) -> Seq<Seq<u8>>
    decreases parts.len(),
{
    if parts.len() == 0 {
        acc
    } else {
        spec_branch_fold(
            if parts[0].len() == 0 {
                acc
            } else {
                acc.push(
                    if acc.len() > 0 {
                        parts[0] + seq![0x2Fu8] + acc.last()
                    } else {
                        parts[0]
                    },
                )
            },
            parts.drop_first(),
        )
    }
}

/// The word `metadata`.
pub open spec fn kw_metadata() -> Seq<u8> {
    seq![0x6Du8, 0x65u8, 0x74u8, 0x61u8, 0x64u8, 0x61u8, 0x74u8, 0x61u8]
}

/// The candidate branch names for a remote address, given its host name (a
/// domain, when there is one) and its path segments: each suffix of the
/// path joined by `/`, the host-qualified whole path, then `metadata`.
pub fn branches_for_url(host: Option<&Vec<u8>>, segments: &Vec<Vec<u8>>) -> (r: Vec<Vec<u8>>)
    ensures
        ({
            let parts = crate::bytes::views(segments@).reverse() + (match host {
                Some(h) => seq![h@],
                None => Seq::<Seq<u8>>::empty(),
            });
            views(r@) == spec_branch_fold(Seq::empty(), parts).push(kw_metadata())
        }),
{
    let ghost parts = crate::bytes::views(segments@).reverse() + (match host {
        Some(h) => seq![h@],
        None => Seq::<Seq<u8>>::empty(),
    });
    let mut branches: Vec<Vec<u8>> = Vec::new();
    let mut i: usize = segments.len();
    proof {
        assert(parts.skip(0) =~= parts);
        assert(views(branches@) =~= Seq::<Seq<u8>>::empty());
    }
    while i > 0
        invariant
            0 <= i <= segments@.len(),
            parts == crate::bytes::views(segments@).reverse() + (match host {
                Some(h) => seq![h@],
                None => Seq::<Seq<u8>>::empty(),
            }),
            parts.len() == segments@.len() + (match host {
                Some(h) => 1int,
                None => 0int,
            }),
            spec_branch_fold(Seq::empty(), parts) == spec_branch_fold(
                views(branches@),
                parts.skip(segments@.len() - i),
            ),
        decreases i,
    {
        i = i - 1;
        let ghost pos = segments@.len() - i - 1;
        proof {
            assert(parts.skip(pos)[0] == parts[pos]);
            assert(parts[pos] == views(segments@).reverse()[pos]);
            assert(views(segments@).reverse()[pos] == views(segments@)[i as int]);
            assert(views(segments@)[i as int] == segments@[i as int]@);
            assert(parts.skip(pos).drop_first() =~= parts.skip(pos + 1));
        }
        let seg = &segments[i];
        if seg.len() > 0 {
            let mut branch: Vec<u8> = Vec::new();
            append_bytes(&mut branch, seg.as_slice());
            if branches.len() > 0 {
                branch.push(0x2F);
                let last = branches.len() - 1;
                append_bytes(&mut branch, branches[last].as_slice());
                proof {
                    assert(views(branches@).last() == branches@[branches@.len() - 1]@);
                    assert(branch@ =~= segments@[i as int]@ + seq![0x2Fu8] + views(
                        branches@,
                    ).last());
                }
            } else {
                proof {
                    assert(branch@ =~= segments@[i as int]@);
                }
            }
            let ghost bv = views(branches@);
            branches.push(branch);
            proof {
                assert(views(branches@) =~= bv.push(branch@));
            }
        }
    }
    match host {
        Some(h) => {
            proof {
                let pos = segments@.len() as int;
                assert(parts.skip(pos)[0] == parts[pos]);
                assert(parts[pos] == h@);
                assert(parts.skip(pos).drop_first() =~= parts.skip(pos + 1));
                assert(parts.skip(pos + 1) =~= Seq::<Seq<u8>>::empty());
            }
            let ghost v = views(branches@);
            proof {
                let pos = segments@.len() as int;
                assert(spec_branch_fold(Seq::empty(), parts) == spec_branch_fold(
                    v,
                    parts.skip(pos),
                ));
                let step = if parts[pos].len() == 0 {
                    v
                } else {
                    v.push(
                        if v.len() > 0 {
                            parts[pos] + seq![0x2Fu8] + v.last()
                        } else {
                            parts[pos]
                        },
                    )
                };
                assert(spec_branch_fold(v, parts.skip(pos)) == spec_branch_fold(
                    step,
                    parts.skip(pos).drop_first(),
                ));
                assert(spec_branch_fold(step, parts.skip(pos + 1)) == step);
            }
            if h.len() > 0 {
                let mut branch: Vec<u8> = Vec::new();
                append_bytes(&mut branch, h.as_slice());
                if branches.len() > 0 {
                    branch.push(0x2F);
                    let last = branches.len() - 1;
                    append_bytes(&mut branch, branches[last].as_slice());
                    proof {
                        assert(views(branches@).last() == branches@[branches@.len() - 1]@);
                        assert(branch@ =~= h@ + seq![0x2Fu8] + views(branches@).last());
                    }
                } else {
                    proof {
                        assert(branch@ =~= h@);
                    }
                }
                branches.push(branch);
                proof {
                    assert(views(branches@) =~= v.push(branch@));
                    assert(spec_branch_fold(Seq::empty(), parts) == views(branches@));
                }
            } else {
                proof {
                    assert(spec_branch_fold(Seq::empty(), parts) == views(branches@));
                }
            }
        },
        None => {
            proof {
                assert(parts.skip(segments@.len() as int) =~= Seq::<Seq<u8>>::empty());
                assert(spec_branch_fold(Seq::empty(), parts) == views(branches@));
            }
        },
    }
    let mut word: Vec<u8> = Vec::new();
    word.push(0x6D);
    word.push(0x65);
    word.push(0x74);
    word.push(0x61);
    word.push(0x64);
    word.push(0x61);
    word.push(0x74);
    word.push(0x61);
    proof {
        assert(word@ =~= kw_metadata());
    }
    let ghost bv = views(branches@);
    branches.push(word);
    proof {
        assert(views(branches@) =~= bv.push(kw_metadata()));
    }
    branches
}

/// Whether `pat` occurs as a contiguous run of `s`.
pub open spec fn spec_contains_run(s: Seq<u8>, pat: Seq<u8>) -> bool {
    exists|i: int| 0 <= i <= s.len() - pat.len() && #[trigger] s.subrange(i, i + pat.len()) == pat
}

/// Whether `pat` occurs as a contiguous run of `s`.
pub fn contains_run(s: &[u8], pat: &[u8]) -> (r: bool)
    ensures
        r == spec_contains_run(s@, pat@),
{
    if pat.len() == 0 {
        proof {
            assert(s@.subrange(0, 0 + pat@.len() as int) =~= pat@);
            assert(spec_contains_run(s@, pat@));
        }
        return true;
    }
    if pat.len() > s.len() {
        proof {
            if spec_contains_run(s@, pat@) {
                let i = choose|i: int|
                    0 <= i <= s@.len() - pat@.len() && #[trigger] s@.subrange(i, i + pat@.len())
                        == pat@;
            }
        }
        return false;
    }
    let mut i: usize = 0;
    let n = s.len();
    let bound = s.len() - pat.len();
    while i <= bound
        invariant
            0 <= i <= bound + 1,
            n == s@.len(),
            bound == s@.len() - pat@.len(),
            1 <= pat@.len() <= s@.len(),
            forall|j: int| 0 <= j < i ==> #[trigger] s@.subrange(j, j + pat@.len()) != pat@,
        decreases bound + 1 - i,
    {
        let window = vstd::slice::slice_subrange(s, i, i + pat.len());
        if bytes_eq(window, pat) {
            proof {
                assert(s@.subrange(i as int, i as int + pat@.len()) == pat@);
            }
            return true;
        }
        i = i + 1;
    }
    proof {
        if spec_contains_run(s@, pat@) {
            let j = choose|j: int|
                0 <= j <= s@.len() - pat@.len() && #[trigger] s@.subrange(j, j + pat@.len())
                    == pat@;
        }
    }
    false
}

/// The words of a byte string: maximal runs free of ASCII whitespace.
pub open spec fn spec_words(s: Seq<u8>) -> Seq<Seq<u8>>
    decreases s.len(),
{
    if s.len() == 0 {
        Seq::empty()
    } else if crate::tags::spec_is_ws(s[0]) {
        spec_words(s.drop_first())
    } else {
        let w = spec_word_end(s, 0);
        proof {
            lemma_word_end_bounds(s, 1);
        }
        seq![s.take(w)] + spec_words(s.skip(w))
    }
}

/// The end of a word lies between its start and the end of the string.
pub proof fn lemma_word_end_bounds(s: Seq<u8>, i: int)
    requires
        0 <= i <= s.len(),
    ensures
        i <= spec_word_end(s, i) <= s.len(),
    decreases s.len() - i,
{
    if i < s.len() && !crate::tags::spec_is_ws(s[i]) {
        lemma_word_end_bounds(s, i + 1);
    }
}

/// The end of the word starting at `i`.
pub open spec fn spec_word_end(s: Seq<u8>, i: int) -> int
    decreases s.len() - i,
{
    if i < 0 || i >= s.len() || crate::tags::spec_is_ws(s[i]) {
        i
    } else {
        spec_word_end(s, i + 1)
    }
}

/// The published metadata's expected shape: an author marked with the
/// bridge's identity, and a body whose whitespace-separated words are
/// exactly the two expected flags, in either order.
pub fn validate_metadata_commit(author: &[u8], body: &[u8]) -> (r: bool)
    ensures
        r == (spec_contains_run(author@, spec_ident_mark()) && ((spec_words(body@) == seq![
            kw_files_meta(),
            kw_unified(),
        ]) || (spec_words(body@) == seq![kw_unified(), kw_files_meta()]))),
{
    let mark = ident_mark_vec();
    if !contains_run(author, mark.as_slice()) {
        return false;
    }
    let words = split_words(body);
    if words.len() != 2 {
        proof {
            if spec_words(body@) == seq![kw_files_meta(), kw_unified()] {
                assert(spec_words(body@).len() == 2);
            }
            if spec_words(body@) == seq![kw_unified(), kw_files_meta()] {
                assert(spec_words(body@).len() == 2);
            }
        }
        return false;
    }
    let fm = files_meta_vec();
    let un = unified_vec();
    let a = bytes_eq(words[0].as_slice(), fm.as_slice()) && bytes_eq(
        words[1].as_slice(),
        un.as_slice(),
    );
    let b = bytes_eq(words[0].as_slice(), un.as_slice()) && bytes_eq(
        words[1].as_slice(),
        fm.as_slice(),
    );
    proof {
        assert(views(words@)[0] == words@[0]@);
        assert(views(words@)[1] == words@[1]@);
        if a {
            assert(views(words@) =~= seq![kw_files_meta(), kw_unified()]);
        }
        if b {
            assert(views(words@) =~= seq![kw_unified(), kw_files_meta()]);
        }
        if !a && !b {
            assert(views(words@) != seq![kw_files_meta(), kw_unified()]) by {
                if views(words@) == seq![kw_files_meta(), kw_unified()] {
                    assert(views(words@)[0] == kw_files_meta());
                    assert(views(words@)[1] == kw_unified());
                }
            }
            assert(views(words@) != seq![kw_unified(), kw_files_meta()]) by {
                if views(words@) == seq![kw_unified(), kw_files_meta()] {
                    assert(views(words@)[0] == kw_unified());
                    assert(views(words@)[1] == kw_files_meta());
                }
            }
        }
    }
    a || b
}

/// Split a byte string into its whitespace-separated words.
pub fn split_words(s: &[u8]) -> (r: Vec<Vec<u8>>)
    ensures
        views(r@) == spec_words(s@),
{
    let mut out: Vec<Vec<u8>> = Vec::new();
    let mut i: usize = 0;
    let n = s.len();
    proof {
        assert(s@.skip(0) =~= s@);
        assert(views(out@) =~= Seq::<Seq<u8>>::empty());
    }
    while i < n
        invariant
            0 <= i <= n,
            n == s@.len(),
            spec_words(s@) == views(out@) + spec_words(s@.skip(i as int)),
        decreases n - i,
    {
        proof {
            assert(s@.skip(i as int)[0] == s@[i as int]);
            assert(s@.skip(i as int).drop_first() =~= s@.skip(i + 1));
        }
        let b = s[i];
        if b == 0x09 || b == 0x0A || b == 0x0B || b == 0x0C || b == 0x0D || b == 0x20 {
            i = i + 1;
        } else {
            // scan to the word's end
            let start = i;
            let mut j = i;
            while j < n && !is_ws_byte(s[j])
                invariant
                    0 <= start <= j <= n,
                    n == s@.len(),
                    !crate::tags::spec_is_ws(s@[start as int]),
                    forall|k: int| start <= k < j ==> !crate::tags::spec_is_ws(#[trigger] s@[k]),
                decreases n - j,
            {
                j = j + 1;
            }
            proof {
                let tail = s@.skip(start as int);
                assert forall|k: int| 0 <= k < j - start implies !crate::tags::spec_is_ws(
                    #[trigger] tail[k],
                ) by {
                    assert(tail[k] == s@[start + k]);
                }
                assert(tail[0] == s@[start as int]);
                if j < n {
                    assert(tail[j - start] == s@[j as int]);
                }
                lemma_word_end_range(tail, (j - start) as int);
            }
            let word = vstd::slice::slice_to_vec(vstd::slice::slice_subrange(s, start, j));
            let ghost bv = views(out@);
            out.push(word);
            proof {
                let tail = s@.skip(start as int);
                assert(word@ =~= tail.take(j - start));
                assert(views(out@) =~= bv.push(word@));
                assert(tail.skip(j - start) =~= s@.skip(j as int));
                assert(spec_words(tail) == seq![tail.take(j - start)] + spec_words(
                    s@.skip(j as int),
                ));
                assert(bv + (seq![word@] + spec_words(s@.skip(j as int))) =~= (bv + seq![word@])
                    + spec_words(s@.skip(j as int)));
            }
            i = j;
        }
    }
    proof {
        assert(s@.skip(n as int) =~= Seq::<u8>::empty());
        assert(views(out@) + Seq::<Seq<u8>>::empty() =~= views(out@));
    }
    out
}

/// `spec_word_end` of a suffix counts the leading non-whitespace run.
proof fn lemma_word_end_range(tail: Seq<u8>, w: int)
    requires
        0 <= w <= tail.len(),
        forall|k: int| 0 <= k < w ==> !crate::tags::spec_is_ws(#[trigger] tail[k]),
        w == tail.len() || crate::tags::spec_is_ws(tail[w]),
        tail.len() > 0,
        !crate::tags::spec_is_ws(tail[0]),
    ensures
        spec_word_end(tail, 0) == w,
        spec_words(tail) == seq![tail.take(w)] + spec_words(tail.skip(w)),
{
    lemma_word_end_from(tail, 0, w);
}

proof fn lemma_word_end_from(tail: Seq<u8>, i: int, w: int)
    requires
        0 <= i <= w <= tail.len(),
        forall|k: int| i <= k < w ==> !crate::tags::spec_is_ws(#[trigger] tail[k]),
        w == tail.len() || crate::tags::spec_is_ws(tail[w]),
    ensures
        spec_word_end(tail, i) == w,
    decreases w - i,
{
    if i < w {
        lemma_word_end_from(tail, i + 1, w);
    }
}

/// Whether a byte is ASCII whitespace.
fn is_ws_byte(b: u8) -> (r: bool)
    ensures
        r == crate::tags::spec_is_ws(b),
{
    b == 0x09 || b == 0x0A || b == 0x0B || b == 0x0C || b == 0x0D || b == 0x20
}

/// The identity mark of published metadata.
pub open spec fn spec_ident_mark() -> Seq<u8> {
    seq![
        0x63u8, 0x69u8, 0x6Eu8, 0x6Eu8, 0x61u8, 0x62u8, 0x61u8, 0x72u8, 0x40u8, 0x67u8, 0x69u8,
        0x74u8,
    ]
}

/// The flag word `files-meta`.
pub open spec fn kw_files_meta() -> Seq<u8> {
    seq![0x66u8, 0x69u8, 0x6Cu8, 0x65u8, 0x73u8, 0x2Du8, 0x6Du8, 0x65u8, 0x74u8, 0x61u8]
}

/// The flag word `unified-manifests-v2`.
pub open spec fn kw_unified() -> Seq<u8> {
    seq![
        0x75u8, 0x6Eu8, 0x69u8, 0x66u8, 0x69u8, 0x65u8, 0x64u8, 0x2Du8, 0x6Du8, 0x61u8, 0x6Eu8,
        0x69u8, 0x66u8, 0x65u8, 0x73u8, 0x74u8, 0x73u8, 0x2Du8, 0x76u8, 0x32u8,
    ]
}

/// The identity mark bytes.
fn ident_mark_vec() -> (r: Vec<u8>)
    ensures
        r@ == spec_ident_mark(),
{
    let mut v: Vec<u8> = Vec::new();
    v.push(0x63);
    v.push(0x69);
    v.push(0x6E);
    v.push(0x6E);
    v.push(0x61);
    v.push(0x62);
    v.push(0x61);
    v.push(0x72);
    v.push(0x40);
    v.push(0x67);
    v.push(0x69);
    v.push(0x74);
    proof {
        assert(v@ =~= spec_ident_mark());
    }
    v
}

/// The flag word `files-meta`.
fn files_meta_vec() -> (r: Vec<u8>)
    ensures
        r@ == kw_files_meta(),
{
    let mut v: Vec<u8> = Vec::new();
    v.push(0x66);
    v.push(0x69);
    v.push(0x6C);
    v.push(0x65);
    v.push(0x73);
    v.push(0x2D);
    v.push(0x6D);
    v.push(0x65);
    v.push(0x74);
    v.push(0x61);
    proof {
        assert(v@ =~= kw_files_meta());
    }
    v
}

/// The flag word `unified-manifests-v2`.
fn unified_vec() -> (r: Vec<u8>)
    ensures
        r@ == kw_unified(),
{
    let mut v: Vec<u8> = Vec::new();
    v.push(0x75);
    v.push(0x6E);
    v.push(0x69);
    v.push(0x66);
    v.push(0x69);
    v.push(0x65);
    v.push(0x64);
    v.push(0x2D);
    v.push(0x6D);
    v.push(0x61);
    v.push(0x6E);
    v.push(0x69);
    v.push(0x66);
    v.push(0x65);
    v.push(0x73);
    v.push(0x74);
    v.push(0x73);
    v.push(0x2D);
    v.push(0x76);
    v.push(0x32);
    proof {
        assert(v@ =~= kw_unified());
    }
    v
}

/// The ref names under which a candidate branch may be advertised, in the
/// order they are tried: the branch itself, under the bridge's ref
/// namespace, and as an ordinary branch head.
pub fn candidate_refnames(branch: &[u8]) -> (r: Vec<Vec<u8>>)
    ensures
        r@.len() == 3,
        views(r@)[0] == branch@,
        views(r@)[1] == spec_cinnabar_prefix() + branch@,
        views(r@)[2] == spec_heads_prefix() + branch@,
{
    let mut plain: Vec<u8> = Vec::new();
    append_bytes(&mut plain, branch);
    let mut cin = cinnabar_prefix_vec();
    append_bytes(&mut cin, branch);
    let mut hd = heads_prefix_vec();
    append_bytes(&mut hd, branch);
    let mut r: Vec<Vec<u8>> = Vec::new();
    r.push(plain);
    r.push(cin);
    r.push(hd);
    proof {
        assert(views(r@)[0] == branch@);
        assert(views(r@)[1] == spec_cinnabar_prefix() + branch@);
        assert(views(r@)[2] == spec_heads_prefix() + branch@);
    }
    r
}

/// The bytes of `refs/cinnabar/`.
pub open spec fn spec_cinnabar_prefix() -> Seq<u8> {
    seq![
        0x72u8, 0x65u8, 0x66u8, 0x73u8, 0x2Fu8, 0x63u8, 0x69u8, 0x6Eu8, 0x6Eu8, 0x61u8, 0x62u8,
        0x61u8, 0x72u8, 0x2Fu8,
    ]
}

/// The bytes of `refs/heads/`.
pub open spec fn spec_heads_prefix() -> Seq<u8> {
    seq![0x72u8, 0x65u8, 0x66u8, 0x73u8, 0x2Fu8, 0x68u8, 0x65u8, 0x61u8, 0x64u8, 0x73u8, 0x2Fu8]
}

fn cinnabar_prefix_vec() -> (r: Vec<u8>)
    ensures
        r@ == spec_cinnabar_prefix(),
{
    let mut v: Vec<u8> = Vec::new();
    v.push(0x72);
    v.push(0x65);
    v.push(0x66);
    v.push(0x73);
    v.push(0x2F);
    v.push(0x63);
    v.push(0x69);
    v.push(0x6E);
    v.push(0x6E);
    v.push(0x61);
    v.push(0x62);
    v.push(0x61);
    v.push(0x72);
    v.push(0x2F);
    proof {
        assert(v@ =~= spec_cinnabar_prefix());
    }
    v
}

/// The prefix `refs/cinnabar/replace/` of the local replace refs.
pub open spec fn spec_replace_prefix() -> Seq<u8> {
    spec_cinnabar_prefix() + seq![0x72u8, 0x65u8, 0x70u8, 0x6Cu8, 0x61u8, 0x63u8, 0x65u8, 0x2Fu8]
}

fn replace_prefix_vec() -> (r: Vec<u8>)
    ensures
        r@ == spec_replace_prefix(),
{
    let mut v = cinnabar_prefix_vec();
    v.push(0x72);
    v.push(0x65);
    v.push(0x70);
    v.push(0x6C);
    v.push(0x61);
    v.push(0x63);
    v.push(0x65);
    v.push(0x2F);
    proof {
        assert(v@ =~= spec_replace_prefix());
    }
    v
}

/// The refname the remote advertises for commit `id`; where several refs
/// carry the same commit, the last one listed wins, as a map keyed by commit
/// retains the last insertion.
pub open spec fn spec_ref_of(refs: Seq<(Seq<u8>, Seq<u8>)>, id: Seq<u8>) -> Option<Seq<u8>>
    decreases refs.len(),
{
    if refs.len() == 0 {
        None
    } else if refs.last().1 == id {
        Some(refs.last().0)
    } else {
        spec_ref_of(refs.drop_last(), id)
    }
}

/// The commits of those tree entries that no advertised ref carries, in
/// entry order.
pub open spec fn spec_missing_refs(
    entries: Seq<(Seq<u8>, Seq<u8>)>,
    refs: Seq<(Seq<u8>, Seq<u8>)>,
) -> Seq<Seq<u8>>
    decreases entries.len(),
{
    if entries.len() == 0 {
        Seq::empty()
    } else {
        (if spec_ref_of(refs, entries[0].1) is None {
            seq![entries[0].1]
        } else {
            Seq::<Seq<u8>>::empty()
        }) + spec_missing_refs(entries.drop_first(), refs)
    }
}

/// Per tree entry, the refname the remote advertises for its commit and the
/// local replace ref (the replace prefix and the entry's path) it is staged
/// under, in entry order.
pub open spec fn spec_resolved_refs(
    entries: Seq<(Seq<u8>, Seq<u8>)>,
    refs: Seq<(Seq<u8>, Seq<u8>)>,
) -> Seq<(Seq<u8>, Seq<u8>)>
    decreases entries.len(),
{
    if entries.len() == 0 {
        Seq::empty()
    } else {
        (match spec_ref_of(refs, entries[0].1) {
            Some(n) => seq![(n, spec_replace_prefix() + entries[0].0)],
            None => Seq::<(Seq<u8>, Seq<u8>)>::empty(),
        }) + spec_resolved_refs(entries.drop_first(), refs)
    }
}

/// The pair views of a refname/commit list.
pub open spec fn ref_views(v: Seq<(Vec<u8>, CommitId)>) -> Seq<(Seq<u8>, Seq<u8>)> {
    v.map_values(|e: (Vec<u8>, CommitId)| (e.0@, e.1@))
}

/// The index of the last advertised ref carrying `id`.
fn ref_of(refs: &Vec<(Vec<u8>, CommitId)>, id: &CommitId) -> (r: Option<usize>)
    ensures
        match r {
            Some(j) => j < refs@.len() && spec_ref_of(ref_views(refs@), id@) == Some(
                ref_views(refs@)[j as int].0,
            ),
            None => spec_ref_of(ref_views(refs@), id@) is None,
        },
{
    let ghost rv = ref_views(refs@);
    let mut found: Option<usize> = None;
    let mut k: usize = 0;
    proof {
        assert(rv.take(0) =~= Seq::<(Seq<u8>, Seq<u8>)>::empty());
    }
    while k < refs.len()
        invariant
            0 <= k <= refs@.len(),
            rv == ref_views(refs@),
            match found {
                Some(j) => j < k && spec_ref_of(rv.take(k as int), id@) == Some(rv[j as int].0),
                None => spec_ref_of(rv.take(k as int), id@) is None,
            },
        decreases refs@.len() - k,
    {
        proof {
            assert(rv.take(k + 1).drop_last() =~= rv.take(k as int));
            assert(rv.take(k + 1).last() == rv[k as int]);
            assert(rv[k as int] == (refs@[k as int].0@, refs@[k as int].1@));
        }
        if refs[k].1 == *id {
            found = Some(k);
        }
        k = k + 1;
    }
    proof {
        assert(rv.take(refs@.len() as int) =~= rv);
    }
    found
}

/// Check the replace refs that fetched metadata names against what the
/// remote advertises: each entry of the metadata commit's tree names a
/// commit, and every one of them must be advertised by some remote ref. `Ok`
/// carries, per entry, the advertised refname and the local replace ref to
/// fetch it into; `Err` lists exactly the commits no advertised ref carries.
pub fn resolve_replace_refs(
    tree_entries: &Vec<(Vec<u8>, CommitId)>,
    remote_refs: &Vec<(Vec<u8>, CommitId)>,
) -> (r: Result<Vec<(Vec<u8>, Vec<u8>)>, Vec<CommitId>>)
    ensures
        ({
            let ev = ref_views(tree_entries@);
            let rv = ref_views(remote_refs@);
            match r {
                Ok(out) => spec_missing_refs(ev, rv).len() == 0 && out@.map_values(
                    |p: (Vec<u8>, Vec<u8>)| (p.0@, p.1@),
                ) == spec_resolved_refs(ev, rv),
                Err(miss) => miss@.map_values(|c: CommitId| c@) == spec_missing_refs(ev, rv)
                    && spec_missing_refs(ev, rv).len() > 0,
            }
        }),
{
    let ghost ev = ref_views(tree_entries@);
    let ghost rv = ref_views(remote_refs@);
    let mut out: Vec<(Vec<u8>, Vec<u8>)> = Vec::new();
    let mut miss: Vec<CommitId> = Vec::new();
    let mut i: usize = 0;
    proof {
        assert(ev.skip(0) =~= ev);
        assert(out@.map_values(|p: (Vec<u8>, Vec<u8>)| (p.0@, p.1@)) =~= Seq::<
            (Seq<u8>, Seq<u8>),
        >::empty());
        assert(miss@.map_values(|c: CommitId| c@) =~= Seq::<Seq<u8>>::empty());
    }
    while i < tree_entries.len()
        invariant
            0 <= i <= tree_entries@.len(),
            ev == ref_views(tree_entries@),
            rv == ref_views(remote_refs@),
            spec_resolved_refs(ev, rv) == out@.map_values(|p: (Vec<u8>, Vec<u8>)| (p.0@, p.1@))
                + spec_resolved_refs(ev.skip(i as int), rv),
            spec_missing_refs(ev, rv) == miss@.map_values(|c: CommitId| c@) + spec_missing_refs(
                ev.skip(i as int),
                rv,
            ),
        decreases tree_entries@.len() - i,
    {
        proof {
            assert(ev.skip(i as int)[0] == ev[i as int]);
            assert(ev[i as int] == (tree_entries@[i as int].0@, tree_entries@[i as int].1@));
            assert(ev.skip(i as int).drop_first() =~= ev.skip(i + 1));
        }
        let entry = &tree_entries[i];
        match ref_of(remote_refs, &entry.1) {
            Some(j) => {
                let refname = vstd::slice::slice_to_vec(remote_refs[j].0.as_slice());
                let mut replace = replace_prefix_vec();
                append_bytes(&mut replace, entry.0.as_slice());
                let ghost outv = out@.map_values(|p: (Vec<u8>, Vec<u8>)| (p.0@, p.1@));
                out.push((refname, replace));
                proof {
                    assert(rv[j as int] == (remote_refs@[j as int].0@, remote_refs@[j as int].1@));
                    assert(out@.map_values(|p: (Vec<u8>, Vec<u8>)| (p.0@, p.1@)) =~= outv
                        + seq![(rv[j as int].0, spec_replace_prefix() + ev[i as int].0)]);
                    assert(outv + (seq![(rv[j as int].0, spec_replace_prefix() + ev[i as int].0)]
                        + spec_resolved_refs(ev.skip(i + 1), rv)) =~= (outv + seq![
                        (rv[j as int].0, spec_replace_prefix() + ev[i as int].0),
                    ]) + spec_resolved_refs(ev.skip(i + 1), rv));
                }
            },
            None => {
                let ghost missv = miss@.map_values(|c: CommitId| c@);
                miss.push(entry.1);
                proof {
                    assert(miss@.map_values(|c: CommitId| c@) =~= missv + seq![ev[i as int].1]);
                    assert(missv + (seq![ev[i as int].1] + spec_missing_refs(
                        ev.skip(i + 1),
                        rv,
                    )) =~= (missv + seq![ev[i as int].1]) + spec_missing_refs(
                        ev.skip(i + 1),
                        rv,
                    ));
                }
            },
        }
        i = i + 1;
    }
    proof {
        assert(ev.skip(tree_entries@.len() as int) =~= Seq::<(Seq<u8>, Seq<u8>)>::empty());
        assert(spec_resolved_refs(Seq::<(Seq<u8>, Seq<u8>)>::empty(), rv) =~= Seq::<
            (Seq<u8>, Seq<u8>),
        >::empty());
        assert(spec_missing_refs(Seq::<(Seq<u8>, Seq<u8>)>::empty(), rv) =~= Seq::<
            Seq<u8>,
        >::empty());
        assert(out@.map_values(|p: (Vec<u8>, Vec<u8>)| (p.0@, p.1@)) + Seq::<
            (Seq<u8>, Seq<u8>),
        >::empty() =~= out@.map_values(|p: (Vec<u8>, Vec<u8>)| (p.0@, p.1@)));
        assert(miss@.map_values(|c: CommitId| c@) + Seq::<Seq<u8>>::empty() =~= miss@.map_values(
            |c: CommitId| c@,
        ));
    }
    if miss.len() > 0 {
        Err(miss)
    } else {
        proof {
            assert(spec_missing_refs(ev, rv).len() == miss@.map_values(|c: CommitId| c@).len());
        }
        Ok(out)
    }
}

fn heads_prefix_vec() -> (r: Vec<u8>)
    ensures
        r@ == spec_heads_prefix(),
{
    let mut v: Vec<u8> = Vec::new();
    v.push(0x72);
    v.push(0x65);
    v.push(0x66);
    v.push(0x73);
    v.push(0x2F);
    v.push(0x68);
    v.push(0x65);
    v.push(0x61);
    v.push(0x64);
    v.push(0x73);
    v.push(0x2F);
    proof {
        assert(v@ =~= spec_heads_prefix());
    }
    v
}

/// The three ref names a candidate branch may be advertised under, in trial
/// order.
pub open spec fn spec_candidates(branch: Seq<u8>) -> Seq<Seq<u8>> {
    seq![branch, spec_cinnabar_prefix() + branch, spec_heads_prefix() + branch]
}

/// Whether the remote advertises `name`.
pub open spec fn spec_advertised(refs: Seq<Seq<u8>>, name: Seq<u8>) -> bool {
    exists|k: int| 0 <= k < refs.len() && refs[k] == name
}

/// The first advertised name among `cands`, in order.
pub open spec fn spec_first_candidate(cands: Seq<Seq<u8>>, refs: Seq<Seq<u8>>) -> Option<Seq<u8>>
    decreases cands.len(),
{
    if cands.len() == 0 {
        None
    } else if spec_advertised(refs, cands[0]) {
        Some(cands[0])
    } else {
        spec_first_candidate(cands.drop_first(), refs)
    }
}

/// The ref the bootstrap fetches: taking the branches in order, and each
/// branch's three candidate spellings in order, the first name the remote
/// advertises; none when no candidate of any branch is advertised.
pub open spec fn spec_choose_refname(branches: Seq<Seq<u8>>, refs: Seq<Seq<u8>>) -> Option<
    Seq<u8>,
>
    decreases branches.len(),
{
    if branches.len() == 0 {
        None
    } else {
        match spec_first_candidate(spec_candidates(branches[0]), refs) {
            Some(n) => Some(n),
            None => spec_choose_refname(branches.drop_first(), refs),
        }
    }
}

/// Pick the ref to fetch: the first candidate branch advertised by the
/// remote, trying each branch's three possible ref names in order. `None`
/// exactly when no candidate of any branch is advertised.
pub fn choose_refname(branches: &Vec<Vec<u8>>, remote_refs: &Vec<Vec<u8>>) -> (r: Option<
    Vec<u8>,
>)
    ensures
        match r {
            Some(name) => spec_choose_refname(views(branches@), views(remote_refs@)) == Some(
                name@,
            ),
            None => spec_choose_refname(views(branches@), views(remote_refs@)) is None,
        },
{
    let ghost bs = views(branches@);
    let ghost rs = views(remote_refs@);
    let mut i: usize = 0;
    proof {
        assert(bs.skip(0) =~= bs);
    }
    while i < branches.len()
        invariant
            0 <= i <= branches@.len(),
            bs == views(branches@),
            rs == views(remote_refs@),
            spec_choose_refname(bs, rs) == spec_choose_refname(bs.skip(i as int), rs),
        decreases branches@.len() - i,
    {
        proof {
            assert(bs.skip(i as int)[0] == bs[i as int]);
            assert(bs[i as int] == branches@[i as int]@);
            assert(bs.skip(i as int).drop_first() =~= bs.skip(i + 1));
        }
        let candidates = candidate_refnames(branches[i].as_slice());
        let ghost cands = spec_candidates(bs[i as int]);
        proof {
            assert(views(candidates@) =~= cands);
            assert(cands.skip(0) =~= cands);
        }
        let mut c: usize = 0;
        while c < candidates.len()
            invariant
                0 <= c <= candidates@.len(),
                candidates@.len() == 3,
                0 <= i < branches@.len(),
                bs == views(branches@),
                rs == views(remote_refs@),
                cands == views(candidates@),
                cands == spec_candidates(bs[i as int]),
                spec_choose_refname(bs, rs) == spec_choose_refname(bs.skip(i as int), rs),
                spec_first_candidate(cands, rs) == spec_first_candidate(
                    cands.skip(c as int),
                    rs,
                ),
            decreases candidates@.len() - c,
        {
            proof {
                assert(cands.skip(c as int)[0] == cands[c as int]);
                assert(cands[c as int] == candidates@[c as int]@);
                assert(cands.skip(c as int).drop_first() =~= cands.skip(c + 1));
            }
            let mut k: usize = 0;
            while k < remote_refs.len()
                invariant
                    0 <= k <= remote_refs@.len(),
                    0 <= c < candidates@.len(),
                    candidates@.len() == 3,
                    0 <= i < branches@.len(),
                    bs == views(branches@),
                    rs == views(remote_refs@),
                    cands == views(candidates@),
                    cands == spec_candidates(bs[i as int]),
                    spec_choose_refname(bs, rs) == spec_choose_refname(bs.skip(i as int), rs),
                    spec_first_candidate(cands, rs) == spec_first_candidate(
                        cands.skip(c as int),
                        rs,
                    ),
                    forall|k2: int| 0 <= k2 < k ==> #[trigger] rs[k2] != candidates@[c as int]@,
                decreases remote_refs@.len() - k,
            {
                if bytes_eq(remote_refs[k].as_slice(), candidates[c].as_slice()) {
                    proof {
                        assert(rs[k as int] == remote_refs@[k as int]@);
                        assert(rs[k as int] == cands[c as int]);
                        assert(spec_advertised(rs, cands[c as int]));
                        assert(spec_first_candidate(cands.skip(c as int), rs) == Some(
                            cands[c as int],
                        ));
                        assert(spec_first_candidate(cands, rs) == Some(cands[c as int]));
                        assert(bs.skip(i as int)[0] == bs[i as int]);
                        assert(spec_candidates(bs.skip(i as int)[0]) == cands);
                        assert(spec_choose_refname(bs.skip(i as int), rs) == Some(
                            cands[c as int],
                        ));
                    }
                    let name = vstd::slice::slice_to_vec(candidates[c].as_slice());
                    return Some(name);
                }
                proof {
                    assert(rs[k as int] == remote_refs@[k as int]@);
                }
                k = k + 1;
            }
            proof {
                assert(!spec_advertised(rs, cands[c as int])) by {
                    if spec_advertised(rs, cands[c as int]) {
                        let k2 = choose|k2: int| 0 <= k2 < rs.len() && rs[k2] == cands[c as int];
                    }
                }
            }
            c = c + 1;
        }
        proof {
            assert(cands.skip(3) =~= Seq::<Seq<u8>>::empty());
        }
        i = i + 1;
    }
    proof {
        assert(bs.skip(branches@.len() as int) =~= Seq::<Seq<u8>>::empty());
    }
    None
}

} // verus!
