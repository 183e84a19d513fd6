//! Small helpers on byte strings: searching, splitting, decimal and
//! hexadecimal codecs, and lexicographic order.

use vstd::prelude::*;

verus! {

/// First position of `b` in `s` at or after `from`, if any.
pub open spec fn spec_find_byte(s: Seq<u8>, b: u8, from: int) -> Option<int>
    decreases s.len() - from,
{
    if from < 0 || from >= s.len() {
        None
    } else if s[from] == b {
        Some(from)
    } else {
        spec_find_byte(s, b, from + 1)
    }
}

/// Whether `b` occurs in `s`.
pub open spec fn spec_contains_byte(s: Seq<u8>, b: u8) -> bool {
    exists|i: int| 0 <= i < s.len() && s[i] == b
}

pub proof fn lemma_find_byte_props(s: Seq<u8>, b: u8, from: int)
    requires
        0 <= from <= s.len(),
    ensures
        match spec_find_byte(s, b, from) {
            Some(i) => from <= i < s.len() && s[i] == b
                && forall|j: int| from <= j < i ==> s[j] != b,
            None => forall|j: int| from <= j < s.len() ==> s[j] != b,
        },
    decreases s.len() - from,
{
    if from < s.len() && s[from] != b {
        lemma_find_byte_props(s, b, from + 1);
    }
}

/// First position of `b` in `s`, if any.
pub fn find_byte(s: &[u8], b: u8) -> (r: Option<usize>)
    ensures
        match r {
            Some(i) => Some(i as int) == spec_find_byte(s@, b, 0),
            None => spec_find_byte(s@, b, 0) is None,
        },
{
    let mut i: usize = 0;
    while i < s.len()
        invariant
            0 <= i <= s@.len(),
            spec_find_byte(s@, b, 0) == spec_find_byte(s@, b, i as int),
            forall|j: int| 0 <= j < i ==> s@[j] != b,
        decreases s@.len() - i,
    {
        if s[i] == b {
            return Some(i);
        }
        i = i + 1;
    }
    None
}

/// Whether `b` occurs in `s`.
pub fn contains_byte(s: &[u8], b: u8) -> (r: bool)
    ensures
        r == spec_contains_byte(s@, b),
{
    let found = find_byte(s, b);
    proof {
        lemma_find_byte_props(s@, b, 0);
    }
    found.is_some()
}

/// Append all of `src` to `dst`.
pub fn append_bytes(dst: &mut Vec<u8>, src: &[u8])
    ensures
        final(dst)@ == old(dst)@ + src@,
{
    let mut i: usize = 0;
    proof {
        assert(dst@ =~= old(dst)@ + src@.take(0));
    }
    while i < src.len()
        invariant
            0 <= i <= src@.len(),
            dst@ == old(dst)@ + src@.take(i as int),
        decreases src@.len() - i,
    {
        let b = src[i];
        dst.push(b);
        proof {
            assert(src@.take(i + 1) =~= src@.take(i as int).push(b));
            assert(dst@ =~= old(dst)@ + src@.take(i + 1));
        }
        i = i + 1;
    }
    proof {
        assert(src@.take(src@.len() as int) =~= src@);
    }
}

/// Byte-wise equality.
pub fn bytes_eq(a: &[u8], b: &[u8]) -> (r: bool)
    ensures
        r == (a@ == b@),
{
    if a.len() != b.len() {
        return false;
    }
    let mut i: usize = 0;
    while i < a.len()
        invariant
            0 <= i <= a@.len(),
            a@.len() == b@.len(),
            forall|j: int| 0 <= j < i ==> a@[j] == b@[j],
        decreases a@.len() - i,
    {
        if a[i] != b[i] {
            proof {
                assert(a@[i as int] != b@[i as int]);
            }
            return false;
        }
        i = i + 1;
    }
    proof {
        assert(a@ =~= b@);
    }
    true
}

/// The views of a sequence of byte vectors.
pub open spec fn views(s: Seq<Vec<u8>>) -> Seq<Seq<u8>> {
    s.map_values(|v: Vec<u8>| v@)
}

/// Splitting `s` on `sep`: always at least one part, and `s.len()` parts'
/// bytes plus `parts - 1` separators make up `s` again.
pub open spec fn spec_split(s: Seq<u8>, sep: u8) -> Seq<Seq<u8>>
    decreases s.len(),
{
    match spec_find_byte(s, sep, 0) {
        None => seq![s],
        Some(i) => {
            if 0 <= i < s.len() {
                seq![s.take(i)] + spec_split(s.skip(i + 1), sep)
            } else {
                seq![s]
            }
        },
    }
}

/// Joining parts with a single `sep` between consecutive parts.
pub open spec fn spec_join(parts: Seq<Seq<u8>>, sep: u8) -> Seq<u8>
    decreases parts.len(),
{
    if parts.len() == 0 {
        Seq::empty()
    } else if parts.len() == 1 {
        parts[0]
    } else {
        parts[0] + seq![sep] + spec_join(parts.drop_first(), sep)
    }
}

/// If `s` has a first occurrence of `sep` at `k`, the split finds it there.
pub proof fn lemma_find_first(s: Seq<u8>, sep: u8, k: int)
    requires
        0 <= k < s.len(),
        s[k] == sep,
        forall|j: int| 0 <= j < k ==> s[j] != sep,
    ensures
        spec_find_byte(s, sep, 0) == Some(k),
{
    lemma_find_byte_props(s, sep, 0);
    match spec_find_byte(s, sep, 0) {
        None => {
            assert(false);
        },
        Some(i) => {
            if i < k {
                assert(s[i] != sep);
            }
            if k < i {
                assert(s[k] != sep);
            }
        },
    }
}

/// Splitting a join recovers the parts, when no part contains the separator.
pub proof fn lemma_split_join(parts: Seq<Seq<u8>>, sep: u8)
    requires
        parts.len() > 0,
        forall|i: int| 0 <= i < parts.len() ==> !spec_contains_byte(#[trigger] parts[i], sep),
    ensures
        spec_split(spec_join(parts, sep), sep) == parts,
    decreases parts.len(),
{
    let s = spec_join(parts, sep);
    if parts.len() == 1 {
        lemma_find_byte_props(s, sep, 0);
        match spec_find_byte(s, sep, 0) {
            None => {
                assert(spec_split(s, sep) =~= seq![parts[0]]);
                assert(spec_split(s, sep) =~= parts);
            },
            Some(i) => {
                assert(spec_contains_byte(parts[0], sep));
            },
        }
    } else {
        let p0 = parts[0];
        let rest = spec_join(parts.drop_first(), sep);
        assert(s =~= p0 + seq![sep] + rest);
        assert forall|j: int| 0 <= j < p0.len() implies s[j] != sep by {
            assert(s[j] == p0[j]);
            assert(!spec_contains_byte(p0, sep));
        }
        assert(s[p0.len() as int] == sep);
        lemma_find_first(s, sep, p0.len() as int);
        assert(s.take(p0.len() as int) =~= p0);
        assert(s.skip(p0.len() as int + 1) =~= rest);
        assert forall|i: int| 0 <= i < parts.drop_first().len()
            implies !spec_contains_byte(#[trigger] parts.drop_first()[i], sep) by {
            assert(parts.drop_first()[i] == parts[i + 1]);
        }
        lemma_split_join(parts.drop_first(), sep);
        assert(spec_split(s, sep) =~= seq![p0] + parts.drop_first());
        assert(spec_split(s, sep) =~= parts);
    }
}

/// The number of parts a split yields is one more than the number of
/// separator occurrences; in particular every part of a split is
/// separator-free.
pub proof fn lemma_split_parts_free(s: Seq<u8>, sep: u8)
    ensures
        spec_split(s, sep).len() >= 1,
        forall|i: int| 0 <= i < spec_split(s, sep).len()
            ==> !spec_contains_byte(#[trigger] spec_split(s, sep)[i], sep),
        spec_join(spec_split(s, sep), sep) == s,
    decreases s.len(),
{
    lemma_find_byte_props(s, sep, 0);
    match spec_find_byte(s, sep, 0) {
        None => {
            assert(spec_split(s, sep) =~= seq![s]);
            assert(!spec_contains_byte(s, sep));
        },
        Some(i) => {
            let head = s.take(i);
            let tail = s.skip(i + 1);
            lemma_split_parts_free(tail, sep);
            assert(spec_split(s, sep) =~= seq![head] + spec_split(tail, sep));
            assert forall|j: int| 0 <= j < head.len() implies head[j] != sep by {
                assert(head[j] == s[j]);
            }
            assert(!spec_contains_byte(head, sep));
            let parts = spec_split(s, sep);
            assert forall|k: int| 0 <= k < parts.len()
                implies !spec_contains_byte(#[trigger] parts[k], sep) by {
                if k > 0 {
                    assert(parts[k] == spec_split(tail, sep)[k - 1]);
                }
            }
            assert(parts.drop_first() =~= spec_split(tail, sep));
            assert(parts[0] == head);
            assert(parts.len() >= 2);
            assert(spec_join(parts, sep) == parts[0] + seq![sep] + spec_join(
                parts.drop_first(),
                sep,
            ));
            assert(spec_join(parts, sep) =~= s);
        },
    }
}

/// Split `s` on every occurrence of `sep`.
pub fn split_byte(s: &[u8], sep: u8) -> (r: Vec<Vec<u8>>)
    ensures
        views(r@) == spec_split(s@, sep),
{
    let mut parts: Vec<Vec<u8>> = Vec::new();
    let mut cur: Vec<u8> = Vec::new();
    let mut start: usize = 0;
    let mut i: usize = 0;
    proof {
        assert(views(parts@) =~= Seq::<Seq<u8>>::empty());
        assert(s@.skip(0) =~= s@);
        assert(cur@ =~= s@.subrange(0, 0));
        assert(spec_split(s@, sep) =~= views(parts@) + spec_split(s@.skip(0), sep));
    }
    while i < s.len()
        invariant
            0 <= start <= i <= s@.len(),
            cur@ == s@.subrange(start as int, i as int),
            forall|j: int| start <= j < i ==> s@[j] != sep,
            spec_split(s@, sep) == views(parts@) + spec_split(s@.skip(start as int), sep),
        decreases s@.len() - i,
    {
        let b = s[i];
        if b == sep {
            proof {
                let tail = s@.skip(start as int);
                assert forall|j: int| 0 <= j < i - start implies tail[j] != sep by {
                    assert(tail[j] == s@[start + j]);
                }
                assert(tail[i - start] == sep);
                lemma_find_first(tail, sep, i - start);
                assert(tail.take(i - start) =~= cur@);
                assert(tail.skip(i - start + 1) =~= s@.skip(i + 1));
                assert(views(parts@.push(cur)) =~= views(parts@) + seq![cur@]);
                assert(spec_split(s@, sep) =~= views(parts@.push(cur)) + spec_split(
                    s@.skip(i + 1),
                    sep,
                ));
            }
            parts.push(cur);
            cur = Vec::new();
            start = i + 1;
            proof {
                assert(cur@ =~= s@.subrange(start as int, start as int));
            }
        } else {
            cur.push(b);
            proof {
                assert(cur@ =~= s@.subrange(start as int, i + 1));
            }
        }
        i = i + 1;
    }
    proof {
        let tail = s@.skip(start as int);
        lemma_find_byte_props(tail, sep, 0);
        assert forall|j: int| 0 <= j < tail.len() implies tail[j] != sep by {
            assert(tail[j] == s@[start + j]);
        }
        assert(cur@ =~= tail);
        assert(views(parts@.push(cur)) =~= views(parts@) + seq![cur@]);
        assert(spec_split(s@, sep) =~= views(parts@.push(cur)));
    }
    parts.push(cur);
    parts
}

/// Join parts with a single `sep` between consecutive parts.
pub fn join_bytes(parts: &Vec<Vec<u8>>, sep: u8) -> (r: Vec<u8>)
    ensures
        r@ == spec_join(views(parts@), sep),
{
    let mut out: Vec<u8> = Vec::new();
    let mut i: usize = 0;
    proof {
        assert(views(parts@).take(0) =~= Seq::<Seq<u8>>::empty());
    }
    while i < parts.len()
        invariant
            0 <= i <= parts@.len(),
            out@ == spec_join(views(parts@).take(i as int), sep),
        decreases parts@.len() - i,
    {
        if i > 0 {
            out.push(sep);
        }
        let mut j: usize = 0;
        let part_len = parts[i].len();
        while j < part_len
            invariant
                0 <= j <= part_len,
                part_len == parts@[i as int]@.len(),
                0 <= i < parts@.len(),
                i > 0 ==> out@ == spec_join(views(parts@).take(i as int), sep) + seq![sep]
                    + parts@[i as int]@.take(j as int),
                i == 0 ==> out@ == parts@[0]@.take(j as int),
            decreases part_len - j,
        {
            let b = parts[i][j];
            out.push(b);
            proof {
                assert(parts@[i as int]@.take(j + 1) =~= parts@[i as int]@.take(j as int).push(b));
                if i > 0 {
                    assert(out@ =~= spec_join(views(parts@).take(i as int), sep) + seq![sep]
                        + parts@[i as int]@.take(j + 1));
                }
            }
            j = j + 1;
        }
        proof {
            assert(parts@[i as int]@.take(part_len as int) =~= parts@[i as int]@);
            assert(views(parts@)[i as int] == parts@[i as int]@);
            if i > 0 {
                lemma_join_push(views(parts@).take(i as int), views(parts@)[i as int], sep);
                assert(views(parts@).take(i as int).push(views(parts@)[i as int]) =~= views(
                    parts@,
                ).take(i + 1));
                assert(out@ =~= spec_join(views(parts@).take(i + 1), sep));
            } else {
                assert(views(parts@).take(1) =~= seq![views(parts@)[0]]);
                assert(out@ =~= spec_join(views(parts@).take(1), sep));
            }
        }
        i = i + 1;
    }
    proof {
        assert(views(parts@).take(parts@.len() as int) =~= views(parts@));
    }
    out
}

/// Appending one more part to a non-empty join adds one separator and the part.
pub proof fn lemma_join_push(parts: Seq<Seq<u8>>, x: Seq<u8>, sep: u8)
    requires
        parts.len() >= 1,
    ensures
        spec_join(parts.push(x), sep) == spec_join(parts, sep) + seq![sep] + x,
    decreases parts.len(),
{
    assert(parts.push(x)[0] == parts[0]);
    assert(parts.push(x).len() == parts.len() + 1);
    assert(spec_join(parts.push(x), sep) == parts[0] + seq![sep] + spec_join(
        parts.push(x).drop_first(),
        sep,
    ));
    if parts.len() == 1 {
        assert(parts.push(x).drop_first() =~= seq![x]);
        assert(spec_join(seq![x], sep) == x);
        assert(spec_join(parts, sep) == parts[0]);
    } else {
        assert(parts.push(x).drop_first() =~= parts.drop_first().push(x));
        lemma_join_push(parts.drop_first(), x, sep);
        assert(spec_join(parts.push(x), sep) =~= spec_join(parts, sep) + seq![sep] + x);
    }
}

/// The decimal digits of `n`, most significant first, without leading zeros
/// (except for `n == 0` itself).
pub open spec fn spec_decimal(n: nat) -> Seq<u8>
    decreases n,
{
    if n < 10 {
        seq![(n + 0x30) as u8]
    } else {
        spec_decimal(n / 10).push(((n % 10) + 0x30) as u8)
    }
}

/// Parsing a decimal number from the front of `s`, rejecting the empty
/// string, any non-digit byte, and values above `usize::MAX`.
pub open spec fn spec_parse_decimal_rec(s: Seq<u8>, acc: nat) -> Option<nat>
    decreases s.len(),
{
    if s.len() == 0 {
        Some(acc)
    } else if !(0x30 <= s[0] <= 0x39) {
        None
    } else if acc * 10 + (s[0] - 0x30) > usize::MAX {
        None
    } else {
        spec_parse_decimal_rec(s.drop_first(), (acc * 10 + (s[0] - 0x30)) as nat)
    }
}

/// A byte string parses as a decimal number iff it is non-empty, all digits,
/// and its value fits in `usize`.
pub open spec fn spec_parse_decimal(s: Seq<u8>) -> Option<nat> {
    if s.len() == 0 {
        None
    } else {
        spec_parse_decimal_rec(s, 0)
    }
}

/// Render `n` in decimal.
pub fn format_decimal(n: usize) -> (r: Vec<u8>)
    ensures
        r@ == spec_decimal(n as nat),
{
    let mut rev: Vec<u8> = Vec::new();
    let mut m: usize = n;
    if m == 0 {
        let mut out: Vec<u8> = Vec::new();
        out.push(0x30);
        proof {
            assert(out@ =~= spec_decimal(0));
        }
        return out;
    }
    proof {
        assert(rev@.reverse() =~= Seq::<u8>::empty());
        assert(spec_decimal(n as nat) =~= spec_decimal(m as nat) + rev@.reverse());
    }
    while m > 0
        invariant
            m > 0 ==> spec_decimal(n as nat) == spec_decimal(m as nat) + rev@.reverse(),
            m == 0 ==> spec_decimal(n as nat) == rev@.reverse(),
        decreases m,
    {
        let d: u8 = (m % 10) as u8 + 0x30;
        let m2 = m / 10;
        proof {
            assert(rev@.push(d).reverse() =~= seq![d] + rev@.reverse());
            if m2 > 0 {
                assert(spec_decimal(m as nat) == spec_decimal(m2 as nat).push(d));
                assert(spec_decimal(m2 as nat) + rev@.push(d).reverse() =~= spec_decimal(
                    m as nat,
                ) + rev@.reverse());
            } else {
                assert(m < 10);
                assert(spec_decimal(m as nat) =~= seq![d]);
                assert(rev@.push(d).reverse() =~= spec_decimal(m as nat) + rev@.reverse());
            }
        }
        rev.push(d);
        m = m2;
    }
    let mut out: Vec<u8> = Vec::new();
    let mut i: usize = rev.len();
    while i > 0
        invariant
            0 <= i <= rev@.len(),
            out@ == rev@.reverse().take(rev@.len() - i),
        decreases i,
    {
        i = i - 1;
        let d = rev[i];
        out.push(d);
        proof {
            assert(rev@.reverse()[rev@.len() - i - 1] == rev@[i as int]);
            assert(out@ =~= rev@.reverse().take(rev@.len() - i));
        }
    }
    proof {
        assert(rev@.reverse().take(rev@.len() as int) =~= rev@.reverse());
    }
    out
}

/// Parse a decimal number.
pub fn parse_decimal(s: &[u8]) -> (r: Option<usize>)
    ensures
        match r {
            Some(v) => spec_parse_decimal(s@) == Some(v as nat),
            None => spec_parse_decimal(s@) is None,
        },
{
    if s.len() == 0 {
        return None;
    }
    let mut acc: usize = 0;
    let mut i: usize = 0;
    proof {
        assert(s@.skip(0) =~= s@);
    }
    while i < s.len()
        invariant
            0 <= i <= s@.len(),
            s@.len() > 0,
            spec_parse_decimal_rec(s@, 0) == spec_parse_decimal_rec(
                s@.skip(i as int),
                acc as nat,
            ),
        decreases s@.len() - i,
    {
        let b = s[i];
        proof {
            assert(s@.skip(i as int)[0] == s@[i as int]);
            assert(s@.skip(i as int).drop_first() =~= s@.skip(i + 1));
        }
        if !(0x30 <= b && b <= 0x39) {
            return None;
        }
        let d = (b - 0x30) as usize;
        if acc > (usize::MAX - d) / 10 {
            proof {
                assert(acc * 10 + d > usize::MAX) by (nonlinear_arith)
                    requires
                        acc > (usize::MAX - d) / 10,
                        0 <= d <= 9,
                ;
            }
            return None;
        }
        proof {
            assert(acc * 10 + d <= usize::MAX) by (nonlinear_arith)
                requires
                    acc <= (usize::MAX - d) / 10,
                    0 <= d <= 9,
            ;
        }
        acc = acc * 10 + d;
        i = i + 1;
    }
    proof {
        assert(s@.skip(s@.len() as int) =~= Seq::<u8>::empty());
    }
    Some(acc)
}

/// Powers of ten.
pub open spec fn pow10(k: nat) -> nat
    decreases k,
{
    if k == 0 {
        1
    } else {
        10 * pow10((k - 1) as nat)
    }
}

proof fn lemma_decimal_bounds(n: nat)
    ensures
        spec_decimal(n).len() >= 1,
        forall|i: int| 0 <= i < spec_decimal(n).len() ==> 0x30 <= #[trigger] spec_decimal(n)[i]
            <= 0x39,
        n < pow10(spec_decimal(n).len()),
        pow10((spec_decimal(n).len() - 1) as nat) <= if n == 0 { 1 } else { n },
    decreases n,
{
    vstd::arithmetic::div_mod::lemma_fundamental_div_mod(n as int, 10);
    if n < 10 {
        assert(pow10(0) == 1);
        assert(pow10(1) == 10 * pow10(0));
        assert(spec_decimal(n) =~= seq![(n + 0x30) as u8]);
    } else {
        lemma_decimal_bounds(n / 10);
        let d = spec_decimal(n / 10);
        let l = d.len();
        let s = spec_decimal(n);
        assert(s =~= d.push(((n % 10) + 0x30) as u8));
        assert(s.len() == l + 1);
        assert forall|i: int| 0 <= i < s.len() implies 0x30 <= #[trigger] s[i] <= 0x39 by {
            if i < l {
                assert(s[i] == d[i]);
            }
        }
        assert(pow10(l + 1) == 10 * pow10(l));
        assert(n < pow10(l + 1)) by (nonlinear_arith)
            requires
                n / 10 < pow10(l),
                pow10(l + 1) == 10 * pow10(l),
                n == 10 * (n / 10) + n % 10,
                n % 10 < 10,
        ;
        assert(pow10(l) <= n) by (nonlinear_arith)
            requires
                pow10((l - 1) as nat) <= n / 10,
                pow10(l) == 10 * pow10((l - 1) as nat),
                l >= 1,
                n == 10 * (n / 10) + n % 10,
                0 <= n % 10,
        ;
    }
}

/// The decimal digits of a number: at least one, all ASCII digits.
pub proof fn lemma_decimal_digits_pub(n: nat)
    ensures
        spec_decimal(n).len() >= 1,
        forall|i: int| 0 <= i < spec_decimal(n).len() ==> 0x30 <= #[trigger] spec_decimal(n)[i]
            <= 0x39,
{
    lemma_decimal_bounds(n);
}

proof fn lemma_parse_decimal_digits(n: nat, acc: nat)
    requires
        acc * pow10(spec_decimal(n).len()) + n <= usize::MAX,
    ensures
        spec_parse_decimal_rec(spec_decimal(n), acc) == Some(
            (acc * pow10(spec_decimal(n).len()) + n) as nat,
        ),
    decreases n,
{
    lemma_decimal_bounds(n);
    vstd::arithmetic::div_mod::lemma_fundamental_div_mod(n as int, 10);
    if n < 10 {
        let s = spec_decimal(n);
        assert(s =~= seq![(n + 0x30) as u8]);
        assert(pow10(0) == 1);
        assert(pow10(1) == 10 * pow10(0));
        assert(acc * pow10(1) == acc * 10) by (nonlinear_arith)
            requires
                pow10(1) == 10,
        ;
        assert(acc * 10 + n <= usize::MAX);
        assert(s.drop_first() =~= Seq::<u8>::empty());
        assert(spec_parse_decimal_rec(s.drop_first(), (acc * 10 + n) as nat) == Some(
            (acc * 10 + n) as nat,
        ));
        assert(spec_parse_decimal_rec(s, acc) == Some((acc * 10 + n) as nat));
    } else {
        let s = spec_decimal(n);
        let front = spec_decimal(n / 10);
        let l = front.len();
        let last = seq![((n % 10) + 0x30) as u8];
        assert(s =~= front + last);
        lemma_decimal_bounds(n / 10);
        lemma_pow10_pos(l);
        assert(pow10(l + 1) == 10 * pow10(l));
        // the bound carries over to the leading digits
        assert(acc * pow10(l) + n / 10 <= usize::MAX) by (nonlinear_arith)
            requires
                acc * pow10(l + 1) + n <= usize::MAX,
                pow10(l + 1) == 10 * pow10(l),
                n == 10 * (n / 10) + n % 10,
                0 <= n % 10,
                pow10(l) >= 1,
        ;
        lemma_parse_decimal_digits(n / 10, acc);
        let mid = (acc * pow10(l) + n / 10) as nat;
        assert(spec_parse_decimal_rec(front, acc) == Some(mid));
        lemma_parse_rec_append(front, last, acc);
        assert(spec_parse_decimal_rec(s, acc) == spec_parse_decimal_rec(last, mid));
        assert(last[0] == (n % 10) + 0x30);
        assert(mid * 10 + n % 10 == acc * pow10(l + 1) + n) by (nonlinear_arith)
            requires
                mid == acc * pow10(l) + n / 10,
                pow10(l + 1) == 10 * pow10(l),
                n == 10 * (n / 10) + n % 10,
        ;
        assert(last.drop_first() =~= Seq::<u8>::empty());
        assert(last[0] - 0x30 == n % 10);
        assert(mid * 10 + (last[0] - 0x30) <= usize::MAX);
        assert(spec_parse_decimal_rec(last.drop_first(), (mid * 10 + (last[0] - 0x30)) as nat)
            == Some((mid * 10 + n % 10) as nat));
        assert(spec_parse_decimal_rec(last, mid) == Some((mid * 10 + n % 10) as nat));
    }
}

/// Parsing a concatenation processes the front first.
proof fn lemma_parse_rec_append(a: Seq<u8>, b: Seq<u8>, acc: nat)
    ensures
        spec_parse_decimal_rec(a + b, acc) == match spec_parse_decimal_rec(a, acc) {
            Some(m) => spec_parse_decimal_rec(b, m),
            None => None::<nat>,
        },
    decreases a.len(),
{
    if a.len() == 0 {
        assert(a + b =~= b);
    } else {
        let s = a + b;
        assert(s[0] == a[0]);
        if 0x30 <= a[0] <= 0x39 && acc * 10 + (a[0] - 0x30) <= usize::MAX {
            assert(s.drop_first() =~= a.drop_first() + b);
            lemma_parse_rec_append(a.drop_first(), b, (acc * 10 + (a[0] - 0x30)) as nat);
        }
    }
}

/// Decimal formatting and parsing are mutual inverses.
pub proof fn lemma_decimal_roundtrip(n: usize)
    ensures
        spec_parse_decimal(spec_decimal(n as nat)) == Some(n as nat),
{
    lemma_decimal_bounds(n as nat);
    assert(pow10(spec_decimal(n as nat).len()) >= 1) by {
        lemma_pow10_pos(spec_decimal(n as nat).len());
    }
    assert(0 * pow10(spec_decimal(n as nat).len()) + n <= usize::MAX);
    lemma_parse_decimal_digits(n as nat, 0);
}

proof fn lemma_pow10_pos(k: nat)
    ensures
        pow10(k) >= 1,
    decreases k,
{
    if k > 0 {
        lemma_pow10_pos((k - 1) as nat);
    }
}

/// The lowercase hex digit for a value below 16.
pub open spec fn spec_hex_digit(v: u8) -> u8 {
    if v < 10 {
        (v + 0x30) as u8
    } else {
        (v - 10 + 0x61) as u8
    }
}

/// The value of a hex digit byte, upper or lower case.
pub open spec fn spec_hex_value(b: u8) -> Option<u8> {
    if 0x30 <= b <= 0x39 {
        Some((b - 0x30) as u8)
    } else if 0x61 <= b <= 0x66 {
        Some((b - 0x61 + 10) as u8)
    } else if 0x41 <= b <= 0x46 {
        Some((b - 0x41 + 10) as u8)
    } else {
        None
    }
}

/// The lowercase hexadecimal rendering of a byte string, two digits per byte.
pub open spec fn spec_hex(s: Seq<u8>) -> Seq<u8>
    decreases s.len(),
{
    if s.len() == 0 {
        Seq::empty()
    } else {
        seq![spec_hex_digit(s[0] / 16), spec_hex_digit(s[0] % 16)] + spec_hex(s.drop_first())
    }
}

/// Hex digits round-trip through their values.
pub proof fn lemma_hex_digit_roundtrip(v: u8)
    requires
        v < 16,
    ensures
        spec_hex_value(spec_hex_digit(v)) == Some(v),
{
}

/// The value of a hex digit byte.
pub fn hex_value(b: u8) -> (r: Option<u8>)
    ensures
        r == spec_hex_value(b),
{
    if 0x30 <= b && b <= 0x39 {
        Some(b - 0x30)
    } else if 0x61 <= b && b <= 0x66 {
        Some(b - 0x61 + 10)
    } else if 0x41 <= b && b <= 0x46 {
        Some(b - 0x41 + 10)
    } else {
        None
    }
}

/// Render `s` in lowercase hex.
pub fn format_hex(s: &[u8]) -> (r: Vec<u8>)
    ensures
        r@ == spec_hex(s@),
{
    let mut out: Vec<u8> = Vec::new();
    let mut i: usize = 0;
    proof {
        lemma_hex_take(s@, 0);
    }
    while i < s.len()
        invariant
            0 <= i <= s@.len(),
            out@ == spec_hex(s@.take(i as int)),
        decreases s@.len() - i,
    {
        let b = s[i];
        let hi = b / 16;
        let lo = b % 16;
        let hd = if hi < 10 {
            hi + 0x30
        } else {
            hi - 10 + 0x61
        };
        let ld = if lo < 10 {
            lo + 0x30
        } else {
            lo - 10 + 0x61
        };
        out.push(hd);
        out.push(ld);
        proof {
            lemma_hex_push(s@.take(i as int), s@[i as int]);
            assert(s@.take(i + 1) =~= s@.take(i as int).push(s@[i as int]));
            assert(out@ =~= spec_hex(s@.take(i + 1)));
        }
        i = i + 1;
    }
    proof {
        assert(s@.take(s@.len() as int) =~= s@);
    }
    out
}

proof fn lemma_hex_take(s: Seq<u8>, n: int)
    requires
        0 <= n <= s.len(),
        n == 0,
    ensures
        spec_hex(s.take(n)) == Seq::<u8>::empty(),
{
    assert(s.take(0) =~= Seq::<u8>::empty());
}

/// Hex of one more byte appends that byte's two digits.
pub proof fn lemma_hex_push(s: Seq<u8>, b: u8)
    ensures
        spec_hex(s.push(b)) == spec_hex(s) + seq![spec_hex_digit(b / 16), spec_hex_digit(b % 16)],
    decreases s.len(),
{
    if s.len() == 0 {
        assert(s.push(b).drop_first() =~= Seq::<u8>::empty());
        assert(s.push(b)[0] == b);
        assert(spec_hex(s.push(b)) == seq![spec_hex_digit(b / 16), spec_hex_digit(b % 16)]
            + spec_hex(s.push(b).drop_first()));
        assert(spec_hex(Seq::<u8>::empty()) =~= Seq::<u8>::empty());
        assert(spec_hex(s.push(b)) =~= seq![spec_hex_digit(b / 16), spec_hex_digit(b % 16)]);
        assert(spec_hex(s) + seq![spec_hex_digit(b / 16), spec_hex_digit(b % 16)] =~= seq![
            spec_hex_digit(b / 16),
            spec_hex_digit(b % 16),
        ]);
    } else {
        assert(s.push(b).drop_first() =~= s.drop_first().push(b));
        assert(s.push(b)[0] == s[0]);
        lemma_hex_push(s.drop_first(), b);
        assert(spec_hex(s.push(b)) =~= spec_hex(s) + seq![
            spec_hex_digit(b / 16),
            spec_hex_digit(b % 16),
        ]);
    }
}

/// Positions of the hex rendering: digit `2*j` holds the high nibble of byte
/// `j`, digit `2*j + 1` the low one.
pub proof fn lemma_hex_index(s: Seq<u8>)
    ensures
        spec_hex(s).len() == 2 * s.len(),
        forall|j: int| 0 <= j < s.len() ==> #[trigger] spec_hex(s)[2 * j] == spec_hex_digit(
            s[j] / 16,
        ) && spec_hex(s)[2 * j + 1] == spec_hex_digit(s[j] % 16),
    decreases s.len(),
{
    if s.len() > 0 {
        lemma_hex_index(s.drop_first());
        assert forall|j: int| 0 <= j < s.len() implies #[trigger] spec_hex(s)[2 * j]
            == spec_hex_digit(s[j] / 16) && spec_hex(s)[2 * j + 1] == spec_hex_digit(
            s[j] % 16,
        ) by {
            if j > 0 {
                assert(spec_hex(s)[2 * j] == spec_hex(s.drop_first())[2 * (j - 1)]);
                assert(spec_hex(s)[2 * j + 1] == spec_hex(s.drop_first())[2 * (j - 1) + 1]);
                assert(s.drop_first()[j - 1] == s[j]);
            }
        }
    }
}

/// Lexicographic (shortlex-free, true byte-wise) order on byte strings:
/// a prefix comes before any extension.
pub open spec fn spec_lex_le(a: Seq<u8>, b: Seq<u8>) -> bool
    decreases a.len(),
{
    if a.len() == 0 {
        true
    } else if b.len() == 0 {
        false
    } else if a[0] < b[0] {
        true
    } else if a[0] > b[0] {
        false
    } else {
        spec_lex_le(a.drop_first(), b.drop_first())
    }
}

/// The order is total.
pub proof fn lemma_lex_total(a: Seq<u8>, b: Seq<u8>)
    ensures
        spec_lex_le(a, b) || spec_lex_le(b, a),
        spec_lex_le(a, b) && spec_lex_le(b, a) ==> a == b,
    decreases a.len(),
{
    if a.len() > 0 && b.len() > 0 && a[0] == b[0] {
        lemma_lex_total(a.drop_first(), b.drop_first());
        if spec_lex_le(a, b) && spec_lex_le(b, a) {
            assert(a.drop_first() == b.drop_first());
            assert(a =~= seq![a[0]] + a.drop_first());
            assert(b =~= seq![b[0]] + b.drop_first());
        }
    }
}

/// The order is transitive.
pub proof fn lemma_lex_trans(a: Seq<u8>, b: Seq<u8>, c: Seq<u8>)
    requires
        spec_lex_le(a, b),
        spec_lex_le(b, c),
    ensures
        spec_lex_le(a, c),
    decreases a.len(),
{
    if a.len() > 0 && b.len() > 0 && c.len() > 0 && a[0] == b[0] && b[0] == c[0] {
        lemma_lex_trans(a.drop_first(), b.drop_first(), c.drop_first());
    }
}

/// Compare two byte strings in lexicographic order.
pub fn lex_le(a: &[u8], b: &[u8]) -> (r: bool)
    ensures
        r == spec_lex_le(a@, b@),
{
    let mut i: usize = 0;
    proof {
        assert(a@.skip(0) =~= a@);
        assert(b@.skip(0) =~= b@);
    }
    while i < a.len() && i < b.len()
        invariant
            0 <= i <= a@.len(),
            0 <= i <= b@.len(),
            spec_lex_le(a@, b@) == spec_lex_le(a@.skip(i as int), b@.skip(i as int)),
        decreases a@.len() - i,
    {
        proof {
            assert(a@.skip(i as int)[0] == a@[i as int]);
            assert(b@.skip(i as int)[0] == b@[i as int]);
            assert(a@.skip(i as int).drop_first() =~= a@.skip(i + 1));
            assert(b@.skip(i as int).drop_first() =~= b@.skip(i + 1));
        }
        if a[i] < b[i] {
            return true;
        }
        if a[i] > b[i] {
            return false;
        }
        i = i + 1;
    }
    i >= a.len()
}

} // verus!
