//! Conversions between the two systems' authorship lines: a native line
//! `name <email> seconds zone` against the foreign `author`, `timestamp`
//! and `utcoffset` (seconds west of UTC) triple.

use vstd::prelude::*;

use crate::bytes::{append_bytes, spec_decimal, spec_find_byte, spec_parse_decimal};

verus! {

/// Last position of `b` in `s`, if any.
pub open spec fn spec_rfind_byte(s: Seq<u8>, b: u8) -> Option<int>
    decreases s.len(),
{
    if s.len() == 0 {
        None
    } else if s.last() == b {
        Some(s.len() - 1)
    } else {
        spec_rfind_byte(s.drop_last(), b)
    }
}

/// Last position of `b` in `s`.
pub fn rfind_byte(s: &[u8], b: u8) -> (r: Option<usize>)
    ensures
        match r {
            Some(i) => spec_rfind_byte(s@, b) == Some(i as int),
            None => spec_rfind_byte(s@, b) is None,
        },
{
    let mut i: usize = s.len();
    proof {
        assert(s@.take(s@.len() as int) =~= s@);
    }
    while i > 0
        invariant
            0 <= i <= s@.len(),
            spec_rfind_byte(s@, b) == spec_rfind_byte(s@.take(i as int), b),
        decreases i,
    {
        i = i - 1;
        proof {
            assert(s@.take(i + 1).last() == s@[i as int]);
            assert(s@.take(i + 1).drop_last() =~= s@.take(i as int));
        }
        if s[i] == b {
            return Some(i);
        }
    }
    proof {
        assert(s@.take(0) =~= Seq::<u8>::empty());
    }
    None
}

/// What `spec_rfind_byte` returns: the last occurrence.
pub proof fn lemma_rfind_props(s: Seq<u8>, b: u8)
    ensures
        match spec_rfind_byte(s, b) {
            Some(i) => 0 <= i < s.len() && s[i] == b && forall|j: int| i < j < s.len() ==> s[j]
                != b,
            None => forall|j: int| 0 <= j < s.len() ==> s[j] != b,
        },
    decreases s.len(),
{
    if s.len() > 0 && s.last() != b {
        lemma_rfind_props(s.drop_last(), b);
        let d = s.drop_last();
        match spec_rfind_byte(d, b) {
            Some(i) => {
                assert(s[i] == d[i]);
                assert forall|j: int| i < j < s.len() implies s[j] != b by {
                    if j < s.len() - 1 {
                        assert(d[j] == s[j]);
                    }
                }
            },
            None => {
                assert forall|j: int| 0 <= j < s.len() implies s[j] != b by {
                    if j < s.len() - 1 {
                        assert(d[j] == s[j]);
                    }
                }
            },
        }
    }
}

/// The decimal rendering of a possibly negative value.
pub open spec fn spec_signed_decimal(v: int) -> Seq<u8> {
    if v < 0 {
        seq![0x2Du8] + spec_decimal((-v) as nat)
    } else {
        spec_decimal(v as nat)
    }
}

/// Render a signed value in decimal.
pub fn format_signed_decimal(neg: bool, magnitude: usize) -> (r: Vec<u8>)
    ensures
        neg && magnitude > 0 ==> r@ == spec_signed_decimal(-(magnitude as int)),
        !neg || magnitude == 0 ==> r@ == spec_signed_decimal(magnitude as int),
{
    let digits = crate::bytes::format_decimal(magnitude);
    if neg && magnitude > 0 {
        let mut out: Vec<u8> = Vec::new();
        out.push(0x2D);
        append_bytes(&mut out, digits.as_slice());
        proof {
            assert(out@ =~= seq![0x2Du8] + digits@);
        }
        out
    } else {
        digits
    }
}

/// The foreign `utcoffset` a native `±HHMM` zone denotes: seconds west of
/// UTC, i.e. the negated offset. A malformed zone counts as zero.
pub open spec fn spec_zone_to_west_seconds(tz: Seq<u8>) -> int {
    if tz.len() == 5 && (tz[0] == 0x2B || tz[0] == 0x2D) && (forall|j: int|
        1 <= j < 5 ==> 0x30 <= #[trigger] tz[j] <= 0x39) {
        let hh = (tz[1] - 0x30) * 10 + (tz[2] - 0x30);
        let mm = (tz[3] - 0x30) * 10 + (tz[4] - 0x30);
        let east = hh * 3600 + mm * 60;
        if tz[0] == 0x2B {
            -east
        } else {
            east
        }
    } else {
        0
    }
}

/// The foreign authorship triple a native author line denotes: the bytes
/// before the last two space-separated fields, those two fields being the
/// timestamp and the zone. A line without two such fields stands for itself
/// with a zero timestamp and offset.
pub open spec fn spec_hg_author(line: Seq<u8>) -> Seq<u8> {
    match spec_rfind_byte(line, 0x20) {
        Some(sp2) => match spec_rfind_byte(line.take(sp2), 0x20) {
            Some(sp1) => line.take(sp1),
            None => line,
        },
        None => line,
    }
}

/// The timestamp field of a native author line.
pub open spec fn spec_hg_timestamp(line: Seq<u8>) -> Seq<u8> {
    match spec_rfind_byte(line, 0x20) {
        Some(sp2) => match spec_rfind_byte(line.take(sp2), 0x20) {
            Some(sp1) => line.subrange(sp1 + 1, sp2),
            None => seq![0x30u8],
        },
        None => seq![0x30u8],
    }
}

/// The `utcoffset` field a native author line denotes, rendered in decimal.
pub open spec fn spec_hg_utcoffset(line: Seq<u8>) -> Seq<u8> {
    match spec_rfind_byte(line, 0x20) {
        Some(sp2) => match spec_rfind_byte(line.take(sp2), 0x20) {
            Some(sp1) => spec_signed_decimal(spec_zone_to_west_seconds(line.skip(sp2 + 1))),
            None => seq![0x30u8],
        },
        None => seq![0x30u8],
    }
}

/// The foreign committer line a native authorship denotes:
/// `author timestamp utcoffset`.
pub open spec fn spec_hg_committer_line(line: Seq<u8>) -> Seq<u8> {
    spec_hg_author(line) + seq![0x20u8] + spec_hg_timestamp(line) + seq![0x20u8]
        + spec_hg_utcoffset(line)
}

/// Derive the foreign authorship triple from a native author line.
pub fn hg_authorship(line: &[u8]) -> (r: (Vec<u8>, Vec<u8>, Vec<u8>))
    ensures
        r.0@ == spec_hg_author(line@),
        r.1@ == spec_hg_timestamp(line@),
        r.2@ == spec_hg_utcoffset(line@),
{
    let zero = || -> (z: Vec<u8>)
        ensures
            z@ == seq![0x30u8],
        {
            let mut z: Vec<u8> = Vec::new();
            z.push(0x30);
            proof {
                assert(z@ =~= seq![0x30u8]);
            }
            z
        };
    let sp2 = match rfind_byte(line, 0x20) {
        Some(i) => i,
        None => {
            return (vstd::slice::slice_to_vec(line), zero(), zero());
        },
    };
    proof {
        lemma_rfind_props(line@, 0x20);
    }
    let head = vstd::slice::slice_subrange(line, 0, sp2);
    let sp1 = match rfind_byte(head, 0x20) {
        Some(i) => i,
        None => {
            proof {
                assert(head@ =~= line@.take(sp2 as int));
            }
            return (vstd::slice::slice_to_vec(line), zero(), zero());
        },
    };
    proof {
        assert(head@ =~= line@.take(sp2 as int));
        lemma_rfind_props(head@, 0x20);
    }
    let n = line.len();
    let author = vstd::slice::slice_to_vec(vstd::slice::slice_subrange(line, 0, sp1));
    let ts = vstd::slice::slice_to_vec(vstd::slice::slice_subrange(line, sp1 + 1, sp2));
    let tz = vstd::slice::slice_subrange(line, sp2 + 1, n);
    let west = zone_west_seconds(tz);
    let utc = format_signed_decimal(west.0, west.1);
    proof {
        assert(author@ =~= line@.take(sp1 as int));
        assert(ts@ =~= line@.subrange(sp1 + 1, sp2 as int));
        assert(tz@ =~= line@.skip(sp2 + 1));
    }
    (author, ts, utc)
}

/// Compute the seconds-west value of a native zone field, as a sign and a
/// magnitude.
fn zone_west_seconds(tz: &[u8]) -> (r: (bool, usize))
    ensures
        ({
            let v = spec_zone_to_west_seconds(tz@);
            if v < 0 {
                r.0 && r.1 == -v
            } else {
                (!r.0 || r.1 == 0) && r.1 == v
            }
        }),
{
    if tz.len() != 5 {
        return (false, 0);
    }
    if !(tz[0] == 0x2B || tz[0] == 0x2D) {
        return (false, 0);
    }
    let mut j: usize = 1;
    while j < 5
        invariant
            1 <= j <= 5,
            tz@.len() == 5,
            forall|k: int| 1 <= k < j ==> 0x30 <= #[trigger] tz@[k] <= 0x39,
        decreases 5 - j,
    {
        if !(0x30 <= tz[j] && tz[j] <= 0x39) {
            return (false, 0);
        }
        j = j + 1;
    }
    let hh = (tz[1] - 0x30) as usize * 10 + (tz[2] - 0x30) as usize;
    let mm = (tz[3] - 0x30) as usize * 10 + (tz[4] - 0x30) as usize;
    let east = hh * 3600 + mm * 60;
    if tz[0] == 0x2B {
        (true, east)
    } else {
        (false, east)
    }
}

/// The foreign committer line derived from a native authorship line.
pub fn hg_committer_line(line: &[u8]) -> (r: Vec<u8>)
    ensures
        r@ == spec_hg_committer_line(line@),
{
    let (author, ts, utc) = hg_authorship(line);
    let mut out = author;
    out.push(0x20);
    append_bytes(&mut out, ts.as_slice());
    out.push(0x20);
    append_bytes(&mut out, utc.as_slice());
    proof {
        assert(out@ =~= spec_hg_committer_line(line@));
    }
    out
}

/// Bytes up to, but not including, any trailing run of spaces.
pub open spec fn spec_trim_trailing_spaces(s: Seq<u8>) -> Seq<u8>
    decreases s.len(),
{
    if s.len() > 0 && s.last() == 0x20 {
        spec_trim_trailing_spaces(s.drop_last())
    } else {
        s
    }
}

/// The name part of a foreign author: before the `<`, trailing spaces
/// trimmed; the whole author when there is no `<`.
pub open spec fn spec_author_name(author: Seq<u8>) -> Seq<u8> {
    match spec_find_byte(author, 0x3C, 0) {
        Some(lt) => spec_trim_trailing_spaces(author.take(lt)),
        None => author,
    }
}

/// The email part of a foreign author: between `<` and the following `>`, or
/// the rest after `<`; empty when there is no `<`.
pub open spec fn spec_author_email(author: Seq<u8>) -> Seq<u8> {
    match spec_find_byte(author, 0x3C, 0) {
        Some(lt) => match spec_find_byte(author, 0x3E, lt + 1) {
            Some(gt) => author.subrange(lt + 1, gt),
            None => author.skip(lt + 1),
        },
        None => Seq::empty(),
    }
}

/// Two decimal digits for a value below one hundred.
pub open spec fn spec_two_digits(v: int) -> Seq<u8> {
    seq![(0x30 + v / 10) as u8, (0x30 + v % 10) as u8]
}

/// The native `±HHMM` zone a foreign `utcoffset` denotes: the negated
/// seconds-west value, in hours and minutes. Anything unrepresentable
/// becomes `+0000`.
pub open spec fn spec_west_seconds_to_zone(utc: Seq<u8>) -> Seq<u8> {
    let v = if utc.len() > 0 && utc[0] == 0x2D {
        match spec_parse_decimal(utc.skip(1)) {
            Some(m) => -(m as int),
            None => 0,
        }
    } else {
        match spec_parse_decimal(utc) {
            Some(m) => m as int,
            None => 0,
        }
    };
    let east = -v;
    let sign: u8 = if east < 0 {
        0x2D
    } else {
        0x2B
    };
    let mag = if east < 0 {
        -east
    } else {
        east
    };
    let hh = mag / 3600;
    let mm = (mag % 3600) / 60;
    if hh < 100 {
        seq![sign] + spec_two_digits(hh) + spec_two_digits(mm)
    } else {
        seq![0x2Bu8, 0x30u8, 0x30u8, 0x30u8, 0x30u8]
    }
}

/// The native author line a foreign authorship denotes:
/// `name <email> timestamp ±HHMM`.
pub open spec fn spec_git_author_line(author: Seq<u8>, ts: Seq<u8>, utc: Seq<u8>) -> Seq<u8> {
    spec_author_name(author) + seq![0x20u8, 0x3Cu8] + spec_author_email(author) + seq![
        0x3Eu8,
        0x20u8,
    ] + ts + seq![0x20u8] + spec_west_seconds_to_zone(utc)
}

/// Derive the native author line from a foreign authorship triple.
pub fn git_author_line(author: &[u8], ts: &[u8], utc: &[u8]) -> (r: Vec<u8>)
    ensures
        r@ == spec_git_author_line(author@, ts@, utc@),
{
    let mut out: Vec<u8> = Vec::new();
    match crate::bytes::find_byte(author, 0x3C) {
        Some(lt) => {
            proof {
                crate::bytes::lemma_find_byte_props(author@, 0x3C, 0);
            }
            let mut end = lt;
            while end > 0 && author[end - 1] == 0x20
                invariant
                    0 <= end <= lt < author@.len(),
                    spec_trim_trailing_spaces(author@.take(lt as int))
                        == spec_trim_trailing_spaces(author@.take(end as int)),
                decreases end,
            {
                proof {
                    assert(author@.take(end as int).last() == author@[end - 1]);
                    assert(author@.take(end as int).drop_last() =~= author@.take(end - 1));
                }
                end = end - 1;
            }
            proof {
                if end > 0 {
                    assert(author@.take(end as int).last() == author@[end - 1]);
                }
                assert(spec_trim_trailing_spaces(author@.take(end as int)) == author@.take(
                    end as int,
                ));
            }
            append_bytes(&mut out, vstd::slice::slice_subrange(author, 0, end));
        },
        None => {
            proof {
                crate::bytes::lemma_find_byte_props(author@, 0x3C, 0);
            }
            append_bytes(&mut out, author);
        },
    }
    out.push(0x20);
    out.push(0x3C);
    match crate::bytes::find_byte(author, 0x3C) {
        Some(lt) => {
            proof {
                crate::bytes::lemma_find_byte_props(author@, 0x3C, 0);
            }
            let n = author.len();
            let tail = vstd::slice::slice_subrange(author, lt + 1, n);
            match crate::bytes::find_byte(tail, 0x3E) {
                Some(gtrel) => {
                    proof {
                        crate::bytes::lemma_find_byte_props(tail@, 0x3E, 0);
                        lemma_find_in_tail(author@, 0x3E, lt as int, gtrel as int);
                        assert(tail@.subrange(0, gtrel as int) =~= author@.subrange(
                            lt + 1,
                            lt + 1 + gtrel,
                        ));
                    }
                    append_bytes(&mut out, vstd::slice::slice_subrange(tail, 0, gtrel));
                },
                None => {
                    proof {
                        crate::bytes::lemma_find_byte_props(tail@, 0x3E, 0);
                        lemma_find_in_tail_none(author@, 0x3E, lt as int);
                        assert(tail@ =~= author@.skip(lt + 1));
                    }
                    append_bytes(&mut out, tail);
                },
            }
        },
        None => {
        },
    }
    out.push(0x3E);
    out.push(0x20);
    append_bytes(&mut out, ts);
    out.push(0x20);
    let zone = west_zone(utc);
    append_bytes(&mut out, zone.as_slice());
    proof {
        assert(out@ =~= spec_git_author_line(author@, ts@, utc@));
    }
    out
}

/// Searching past `lt` finds what the suffix search finds.
proof fn lemma_find_in_tail(author: Seq<u8>, b: u8, lt: int, rel: int)
    requires
        0 <= lt < author.len(),
        spec_find_byte(author.skip(lt + 1), b, 0) == Some(rel),
    ensures
        spec_find_byte(author, b, lt + 1) == Some(lt + 1 + rel),
{
    let tail = author.skip(lt + 1);
    crate::bytes::lemma_find_byte_props(tail, b, 0);
    assert(tail[rel] == author[lt + 1 + rel]);
    assert forall|j: int| lt + 1 <= j < lt + 1 + rel implies author[j] != b by {
        assert(tail[j - lt - 1] == author[j]);
    }
    lemma_find_between_pub(author, b, lt + 1, lt + 1 + rel);
}

proof fn lemma_find_in_tail_none(author: Seq<u8>, b: u8, lt: int)
    requires
        0 <= lt < author.len(),
        spec_find_byte(author.skip(lt + 1), b, 0) is None,
    ensures
        spec_find_byte(author, b, lt + 1) is None,
{
    let tail = author.skip(lt + 1);
    crate::bytes::lemma_find_byte_props(tail, b, 0);
    crate::bytes::lemma_find_byte_props(author, b, lt + 1);
    match spec_find_byte(author, b, lt + 1) {
        Some(i) => {
            assert(tail[i - lt - 1] == author[i]);
        },
        None => {
        },
    }
}

/// If `b` first occurs at `k` at or past `from`, the search finds it there.
proof fn lemma_find_between_pub(s: Seq<u8>, b: u8, from: int, k: int)
    requires
        0 <= from <= k < s.len(),
        s[k] == b,
        forall|j: int| from <= j < k ==> s[j] != b,
    ensures
        spec_find_byte(s, b, from) == Some(k),
    decreases k - from,
{
    if from < k {
        assert(s[from] != b);
        lemma_find_between_pub(s, b, from + 1, k);
    }
}

/// Render a foreign `utcoffset` as a native `±HHMM` zone.
fn west_zone(utc: &[u8]) -> (r: Vec<u8>)
    ensures
        r@ == spec_west_seconds_to_zone(utc@),
{
    let neg_west = utc.len() > 0 && utc[0] == 0x2D;
    let magnitude: Option<usize> = if neg_west {
        crate::bytes::parse_decimal(vstd::slice::slice_subrange(utc, 1, utc.len()))
    } else {
        crate::bytes::parse_decimal(utc)
    };
    proof {
        if neg_west {
            assert(utc@.subrange(1, utc@.len() as int) =~= utc@.skip(1));
        }
    }
    // east = -west: west negative means east positive
    let (east_neg, east_mag): (bool, usize) = match magnitude {
        Some(m) => if neg_west {
            (false, m)
        } else {
            (m > 0, m)
        },
        None => (false, 0),
    };
    let hh = east_mag / 3600;
    let mm = (east_mag % 3600) / 60;
    let mut out: Vec<u8> = Vec::new();
    if hh >= 100 {
        out.push(0x2B);
        out.push(0x30);
        out.push(0x30);
        out.push(0x30);
        out.push(0x30);
        proof {
            assert(out@ =~= spec_west_seconds_to_zone(utc@));
        }
        return out;
    }
    if east_neg && east_mag > 0 {
        out.push(0x2D);
    } else {
        out.push(0x2B);
    }
    out.push(0x30 + (hh / 10) as u8);
    out.push(0x30 + (hh % 10) as u8);
    out.push(0x30 + (mm / 10) as u8);
    out.push(0x30 + (mm % 10) as u8);
    proof {
        assert(mm < 60) by (nonlinear_arith)
            requires
                mm == (east_mag as int % 3600) / 60,
                east_mag >= 0,
        ;
        assert(out@ =~= spec_west_seconds_to_zone(utc@));
    }
    out
}

/// The last space-separated field of a committer line, or `0` when the line
/// has no two such fields.
pub open spec fn spec_last_field(cm: Seq<u8>) -> Seq<u8> {
    match spec_rfind_byte(cm, 0x20) {
        Some(sp2) => match spec_rfind_byte(cm.take(sp2), 0x20) {
            Some(sp1) => cm.skip(sp2 + 1),
            None => seq![0x30u8],
        },
        None => seq![0x30u8],
    }
}

/// The native author line a foreign committer entry denotes: the entry is
/// `author timestamp utcoffset`, and converts like any foreign authorship.
pub open spec fn spec_committer_git_line(cm: Seq<u8>) -> Seq<u8> {
    spec_git_author_line(spec_hg_author(cm), spec_hg_timestamp(cm), spec_last_field(cm))
}

/// Derive the native author line from a foreign committer entry.
pub fn committer_git_line(cm: &[u8]) -> (r: Vec<u8>)
    ensures
        r@ == spec_committer_git_line(cm@),
{
    let zero = || -> (z: Vec<u8>)
        ensures
            z@ == seq![0x30u8],
        {
            let mut z: Vec<u8> = Vec::new();
            z.push(0x30);
            proof {
                assert(z@ =~= seq![0x30u8]);
            }
            z
        };
    let n = cm.len();
    let (author, ts, _utc) = hg_authorship(cm);
    let last: Vec<u8> = match rfind_byte(cm, 0x20) {
        Some(sp2) => {
            proof {
                lemma_rfind_props(cm@, 0x20);
            }
            let head = vstd::slice::slice_subrange(cm, 0, sp2);
            match rfind_byte(head, 0x20) {
                Some(_) => {
                    proof {
                        assert(head@ =~= cm@.take(sp2 as int));
                    }
                    let l = vstd::slice::slice_to_vec(vstd::slice::slice_subrange(
                        cm,
                        sp2 + 1,
                        n,
                    ));
                    proof {
                        assert(l@ =~= cm@.skip(sp2 as int + 1));
                    }
                    l
                },
                None => {
                    proof {
                        assert(head@ =~= cm@.take(sp2 as int));
                    }
                    zero()
                },
            }
        },
        None => zero(),
    };
    git_author_line(author.as_slice(), ts.as_slice(), last.as_slice())
}

} // verus!
