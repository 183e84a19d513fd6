//! The `extra` dictionary of a changeset: an ordered string-keyed map of
//! byte strings, iterated in ascending key order, serialized as
//! colon-separated pairs joined by NUL bytes.

use vstd::prelude::*;

use crate::bytes::{
    append_bytes, bytes_eq, find_byte, lemma_find_first, lemma_join_push, lemma_split_join,
    lex_le, spec_contains_byte, spec_join, spec_lex_le, spec_split,
};

verus! {

/// Strict ascending order of keys.
pub open spec fn key_lt(a: Seq<u8>, b: Seq<u8>) -> bool {
    spec_lex_le(a, b) && a != b
}

/// The pairs are strictly sorted by key.
pub open spec fn pairs_sorted(ps: Seq<(Seq<u8>, Seq<u8>)>) -> bool {
    forall|i: int, j: int| 0 <= i < j < ps.len() ==> key_lt(#[trigger] ps[i].0, #[trigger] ps[j].0)
}

/// Keys hold neither NUL nor colon, values hold no NUL: what the on-disk
/// encoding can carry.
pub open spec fn pairs_encodable(ps: Seq<(Seq<u8>, Seq<u8>)>) -> bool {
    forall|i: int| 0 <= i < ps.len() ==> !spec_contains_byte(#[trigger] ps[i].0, 0)
        && !spec_contains_byte(ps[i].0, 0x3A) && !spec_contains_byte(ps[i].1, 0)
}

/// The value stored under `k`.
pub open spec fn spec_lookup(ps: Seq<(Seq<u8>, Seq<u8>)>, k: Seq<u8>) -> Option<Seq<u8>>
    decreases ps.len(),
{
    if ps.len() == 0 {
        None
    } else if ps[0].0 == k {
        Some(ps[0].1)
    } else {
        spec_lookup(ps.drop_first(), k)
    }
}

/// Insert or overwrite `k`, keeping keys sorted.
pub open spec fn spec_insert(ps: Seq<(Seq<u8>, Seq<u8>)>, k: Seq<u8>, v: Seq<u8>) -> Seq<
    (Seq<u8>, Seq<u8>),
>
    decreases ps.len(),
{
    if ps.len() == 0 {
        seq![(k, v)]
    } else if ps[0].0 == k {
        seq![(k, v)] + ps.drop_first()
    } else if key_lt(k, ps[0].0) {
        seq![(k, v)] + ps
    } else {
        seq![ps[0]] + spec_insert(ps.drop_first(), k, v)
    }
}

/// Remove `k` if present.
pub open spec fn spec_remove(ps: Seq<(Seq<u8>, Seq<u8>)>, k: Seq<u8>) -> Seq<(Seq<u8>, Seq<u8>)>
    decreases ps.len(),
{
    if ps.len() == 0 {
        ps
    } else if ps[0].0 == k {
        ps.drop_first()
    } else {
        seq![ps[0]] + spec_remove(ps.drop_first(), k)
    }
}

/// The serialized form of each pair: `key ':' value`.
pub open spec fn spec_dump_parts(ps: Seq<(Seq<u8>, Seq<u8>)>) -> Seq<Seq<u8>> {
    ps.map_values(|p: (Seq<u8>, Seq<u8>)| p.0 + seq![0x3Au8] + p.1)
}

/// The serialized dictionary: pairs joined by NUL.
pub open spec fn spec_dump(ps: Seq<(Seq<u8>, Seq<u8>)>) -> Seq<u8> {
    spec_join(spec_dump_parts(ps), 0)
}

/// One serialized pair, split at its first colon.
pub open spec fn spec_parse_pair(part: Seq<u8>) -> (Seq<u8>, Seq<u8>) {
    match crate::bytes::spec_find_byte(part, 0x3A, 0) {
        Some(c) => (part.take(c), part.skip(c + 1)),
        None => (part, Seq::empty()),
    }
}

/// Folding serialized pairs into a dictionary, later keys overwriting earlier
/// ones.
pub open spec fn spec_from_rec(acc: Seq<(Seq<u8>, Seq<u8>)>, parts: Seq<Seq<u8>>) -> Seq<
    (Seq<u8>, Seq<u8>),
>
    decreases parts.len(),
{
    if parts.len() == 0 {
        acc
    } else {
        spec_from_rec(
            spec_insert(acc, spec_parse_pair(parts[0]).0, spec_parse_pair(parts[0]).1),
            parts.drop_first(),
        )
    }
}

/// The dictionary a serialized buffer denotes.
pub open spec fn spec_extra_from(buf: Seq<u8>) -> Seq<(Seq<u8>, Seq<u8>)> {
    if buf.len() == 0 {
        Seq::empty()
    } else {
        spec_from_rec(Seq::empty(), spec_split(buf, 0))
    }
}

/// Every part of a non-empty serialized dictionary must contain a colon for
/// the parse to be meaningful; the empty buffer stands for the empty
/// dictionary.
pub open spec fn spec_extra_buf_wf(buf: Seq<u8>) -> bool {
    buf.len() == 0 || (forall|i: int| 0 <= i < spec_split(buf, 0).len() ==> spec_contains_byte(
        #[trigger] spec_split(buf, 0)[i],
        0x3A,
    ))
}

/// An ordered string-keyed dictionary with byte-string keys and values.
#[derive(Debug)]
pub struct ChangesetExtra {
    data: Vec<(Vec<u8>, Vec<u8>)>,
}

impl View for ChangesetExtra {
    type V = Seq<(Seq<u8>, Seq<u8>)>;

    closed spec fn view(&self) -> Seq<(Seq<u8>, Seq<u8>)> {
        self.data@.map_values(|p: (Vec<u8>, Vec<u8>)| (p.0@, p.1@))
    }
}

/// Inserting keeps the pairs sorted, and stores exactly the new binding.
pub proof fn lemma_insert_sorted(ps: Seq<(Seq<u8>, Seq<u8>)>, k: Seq<u8>, v: Seq<u8>)
    requires
        pairs_sorted(ps),
    ensures
        pairs_sorted(spec_insert(ps, k, v)),
        spec_lookup(spec_insert(ps, k, v), k) == Some(v),
    decreases ps.len(),
{
    crate::bytes::lemma_lex_total(k, if ps.len() > 0 { ps[0].0 } else { k });
    if ps.len() == 0 {
        let r = spec_insert(ps, k, v);
        assert(r[0] == (k, v));
        assert(r.drop_first() =~= Seq::<(Seq<u8>, Seq<u8>)>::empty());
    } else if ps[0].0 == k {
        let r = spec_insert(ps, k, v);
        assert(r[0] == (k, v));
        assert(r.drop_first() =~= ps.drop_first());
        assert forall|i: int, j: int| 0 <= i < j < r.len() implies key_lt(
            #[trigger] r[i].0,
            #[trigger] r[j].0,
        ) by {
            if i > 0 {
                assert(r[i] == ps[i]);
                assert(r[j] == ps[j]);
            } else {
                assert(r[j] == ps[j]);
                assert(key_lt(ps[0].0, ps[j].0));
            }
        }
    } else if key_lt(k, ps[0].0) {
        let r = spec_insert(ps, k, v);
        assert(r[0] == (k, v));
        assert(r.drop_first() =~= ps);
        assert forall|i: int, j: int| 0 <= i < j < r.len() implies key_lt(
            #[trigger] r[i].0,
            #[trigger] r[j].0,
        ) by {
            if i > 0 {
                assert(r[i] == ps[i - 1]);
                assert(r[j] == ps[j - 1]);
            } else {
                assert(r[j] == ps[j - 1]);
                if j > 1 {
                    crate::bytes::lemma_lex_trans(k, ps[0].0, ps[j - 1].0);
                    if k == ps[j - 1].0 {
                        crate::bytes::lemma_lex_total(ps[0].0, ps[j - 1].0);
                    }
                }
            }
        }
    } else {
        let tail = ps.drop_first();
        assert(pairs_sorted(tail)) by {
            assert forall|i: int, j: int| 0 <= i < j < tail.len() implies key_lt(
                #[trigger] tail[i].0,
                #[trigger] tail[j].0,
            ) by {
                assert(tail[i] == ps[i + 1]);
                assert(tail[j] == ps[j + 1]);
            }
        }
        lemma_insert_sorted(tail, k, v);
        let rt = spec_insert(tail, k, v);
        let r = spec_insert(ps, k, v);
        assert(r =~= seq![ps[0]] + rt);
        // ps[0].0 is below k and below every key of the old tail, hence below
        // every key of the new tail
        assert(key_lt(ps[0].0, k));
        assert forall|i: int, j: int| 0 <= i < j < r.len() implies key_lt(
            #[trigger] r[i].0,
            #[trigger] r[j].0,
        ) by {
            if i > 0 {
                assert(r[i] == rt[i - 1]);
                assert(r[j] == rt[j - 1]);
            } else {
                assert(r[j] == rt[j - 1]);
                lemma_insert_key_origin(tail, k, v, j - 1);
                if rt[j - 1].0 == k {
                    assert(key_lt(ps[0].0, rt[j - 1].0));
                } else {
                    let idx = choose|idx: int| 0 <= idx < tail.len() && #[trigger] tail[idx]
                        == rt[j - 1];
                    assert(key_lt(ps[0].0, tail[idx].0));
                }
            }
        }
        assert(r.drop_first() =~= rt);
        assert(r[0].0 != k);
        assert(spec_lookup(r, k) == spec_lookup(rt, k));
    }
}

/// Every pair of an insertion result is either the new binding or one of the
/// old pairs.
proof fn lemma_insert_key_origin(ps: Seq<(Seq<u8>, Seq<u8>)>, k: Seq<u8>, v: Seq<u8>, j: int)
    requires
        0 <= j < spec_insert(ps, k, v).len(),
    ensures
        spec_insert(ps, k, v)[j].0 == k || exists|idx: int|
            0 <= idx < ps.len() && #[trigger] ps[idx] == spec_insert(ps, k, v)[j],
    decreases ps.len(),
{
    let r = spec_insert(ps, k, v);
    if ps.len() == 0 {
    } else if ps[0].0 == k {
        if j > 0 {
            assert(r[j] == ps.drop_first()[j - 1]);
            assert(ps[j] == r[j]);
        }
    } else if key_lt(k, ps[0].0) {
        if j > 0 {
            assert(r[j] == ps[j - 1]);
        }
    } else {
        if j > 0 {
            assert(r[j] == spec_insert(ps.drop_first(), k, v)[j - 1]);
            lemma_insert_key_origin(ps.drop_first(), k, v, j - 1);
            if spec_insert(ps.drop_first(), k, v)[j - 1].0 != k {
                let idx = choose|idx: int| 0 <= idx < ps.drop_first().len()
                    && #[trigger] ps.drop_first()[idx] == spec_insert(ps.drop_first(), k, v)[j
                    - 1];
                assert(ps[idx + 1] == r[j]);
            }
        } else {
            assert(r[0] == ps[0]);
        }
    }
}

/// Inserting a key above every present key appends.
pub proof fn lemma_insert_append(ps: Seq<(Seq<u8>, Seq<u8>)>, k: Seq<u8>, v: Seq<u8>)
    requires
        forall|i: int| 0 <= i < ps.len() ==> key_lt(#[trigger] ps[i].0, k),
    ensures
        spec_insert(ps, k, v) == ps.push((k, v)),
    decreases ps.len(),
{
    if ps.len() == 0 {
        assert(spec_insert(ps, k, v) =~= ps.push((k, v)));
    } else {
        assert(key_lt(ps[0].0, k));
        assert(ps[0].0 != k);
        if key_lt(k, ps[0].0) {
            crate::bytes::lemma_lex_total(k, ps[0].0);
            assert(false);
        }
        assert forall|i: int| 0 <= i < ps.drop_first().len() implies key_lt(
            #[trigger] ps.drop_first()[i].0,
            k,
        ) by {
            assert(ps.drop_first()[i] == ps[i + 1]);
        }
        lemma_insert_append(ps.drop_first(), k, v);
        assert(spec_insert(ps, k, v) =~= ps.push((k, v)));
    }
}

impl ChangesetExtra {
    /// Whether the dictionary is well formed: keys strictly ascending.
    pub open spec fn well_formed(&self) -> bool {
        pairs_sorted(self@)
    }

    /// An empty dictionary.
    pub fn new() -> (r: Self)
        ensures
            r@ == Seq::<(Seq<u8>, Seq<u8>)>::empty(),
            r.well_formed(),
    {
        let r = ChangesetExtra { data: Vec::new() };
        proof {
            assert(r@ =~= Seq::<(Seq<u8>, Seq<u8>)>::empty());
        }
        r
    }

    /// Parse a serialized dictionary.
    ///
    /// Requires every NUL-separated part of a non-empty buffer to carry a
    /// colon, which is what any buffer produced by `dump_into` looks like.
    pub fn from(buf: &[u8]) -> (r: Self)
        requires
            spec_extra_buf_wf(buf@),
        ensures
            r@ == spec_extra_from(buf@),
            r.well_formed(),
    {
        if buf.len() == 0 {
            let r = Self::new();
            proof {
                assert(r@ =~= spec_extra_from(buf@));
            }
            return r;
        }
        let parts = crate::bytes::split_byte(buf, 0);
        let mut out = Self::new();
        let mut i: usize = 0;
        proof {
            assert(crate::bytes::views(parts@).skip(0) =~= crate::bytes::views(parts@));
        }
        while i < parts.len()
            invariant
                0 <= i <= parts@.len(),
                crate::bytes::views(parts@) == spec_split(buf@, 0),
                buf@.len() > 0,
                spec_extra_buf_wf(buf@),
                out.well_formed(),
                spec_extra_from(buf@) == spec_from_rec(
                    out@,
                    crate::bytes::views(parts@).skip(i as int),
                ),
            decreases parts@.len() - i,
        {
            let part = &parts[i];
            proof {
                assert(crate::bytes::views(parts@)[i as int] == part@);
                assert(spec_contains_byte(part@, 0x3A));
                crate::bytes::lemma_find_byte_props(part@, 0x3A, 0);
            }
            let c = match find_byte(part.as_slice(), 0x3A) {
                Some(c) => c,
                None => {
                    proof {
                        assert(false);
                    }
                    0
                },
            };
            let key = vstd::slice::slice_to_vec(vstd::slice::slice_subrange(
                part.as_slice(),
                0,
                c,
            ));
            let value = vstd::slice::slice_to_vec(vstd::slice::slice_subrange(
                part.as_slice(),
                c + 1,
                part.len(),
            ));
            proof {
                assert(key@ =~= spec_parse_pair(part@).0);
                assert(value@ =~= spec_parse_pair(part@).1);
                lemma_insert_sorted(out@, key@, value@);
                assert(crate::bytes::views(parts@).skip(i as int)[0] == part@);
                assert(crate::bytes::views(parts@).skip(i as int).drop_first()
                    =~= crate::bytes::views(parts@).skip(i + 1));
            }
            self_insert(&mut out, key, value);
            i = i + 1;
        }
        proof {
            assert(crate::bytes::views(parts@).skip(parts@.len() as int) =~= Seq::<
                Seq<u8>,
            >::empty());
        }
        out
    }

    /// The value stored under `name`.
    pub fn get(&self, name: &[u8]) -> (r: Option<&Vec<u8>>)
        ensures
            match r {
                Some(v) => spec_lookup(self@, name@) == Some(v@),
                None => spec_lookup(self@, name@) is None,
            },
    {
        let mut i: usize = 0;
        proof {
            assert(self@.skip(0) =~= self@);
        }
        while i < self.data.len()
            invariant
                0 <= i <= self@.len(),
                spec_lookup(self@, name@) == spec_lookup(self@.skip(i as int), name@),
            decreases self@.len() - i,
        {
            proof {
                assert(self@.skip(i as int)[0] == self@[i as int]);
                assert(self@.skip(i as int).drop_first() =~= self@.skip(i + 1));
            }
            if bytes_eq(self.data[i].0.as_slice(), name) {
                return Some(&self.data[i].1);
            }
            i = i + 1;
        }
        None
    }

    /// Remove `name`.
    pub fn unset(&mut self, name: &[u8])
        requires
            old(self).well_formed(),
        ensures
            final(self)@ == spec_remove(old(self)@, name@),
            final(self).well_formed(),
    {
        let ghost ps = old(self)@;
        let mut i: usize = 0;
        proof {
            assert(ps.skip(0) =~= ps);
        }
        while i < self.data.len()
            invariant
                0 <= i <= self@.len(),
                self@ == ps,
                old(self)@ == ps,
                pairs_sorted(ps),
                forall|j: int| 0 <= j < i ==> #[trigger] ps[j].0 != name@,
            decreases self@.len() - i,
        {
            proof {
                assert(ps[i as int].0 == self.data@[i as int].0@);
            }
            if bytes_eq(self.data[i].0.as_slice(), name) {
                proof {
                    lemma_remove_at(ps, name@, i as int);
                }
                self.data.remove(i);
                proof {
                    assert(self@ =~= ps.take(i as int) + ps.skip(i + 1));
                    lemma_sorted_without(ps, i as int);
                }
                return ;
            }
            i = i + 1;
        }
        proof {
            lemma_remove_absent(ps, name@);
            assert(self@ =~= ps);
        }
    }

    /// Bind `name` to `value`, overwriting any existing binding.
    pub fn set(&mut self, name: &[u8], value: &[u8])
        requires
            old(self).well_formed(),
        ensures
            final(self)@ == spec_insert(old(self)@, name@, value@),
            final(self).well_formed(),
    {
        let key = vstd::slice::slice_to_vec(name);
        let val = vstd::slice::slice_to_vec(value);
        proof {
            lemma_insert_sorted(old(self)@, name@, value@);
        }
        self_insert(self, key, val);
    }

    /// Append the serialized dictionary to `buf`: pairs in ascending key
    /// order, `key ':' value`, joined by NUL.
    pub fn dump_into(&self, buf: &mut Vec<u8>)
        ensures
            final(buf)@ == old(buf)@ + spec_dump(self@),
    {
        let mut i: usize = 0;
        proof {
            assert(spec_dump_parts(self@).take(0) =~= Seq::<Seq<u8>>::empty());
            assert(buf@ =~= old(buf)@ + spec_join(spec_dump_parts(self@).take(0), 0));
        }
        while i < self.data.len()
            invariant
                0 <= i <= self@.len(),
                buf@ == old(buf)@ + spec_join(spec_dump_parts(self@).take(i as int), 0),
            decreases self@.len() - i,
        {
            if i > 0 {
                buf.push(0);
            }
            append_bytes(buf, self.data[i].0.as_slice());
            buf.push(0x3A);
            append_bytes(buf, self.data[i].1.as_slice());
            proof {
                let dp = spec_dump_parts(self@);
                assert(dp[i as int] == self@[i as int].0 + seq![0x3Au8] + self@[i as int].1);
                assert(dp.take(i + 1) =~= dp.take(i as int).push(dp[i as int]));
                if i > 0 {
                    lemma_join_push(dp.take(i as int), dp[i as int], 0);
                    assert(buf@ =~= old(buf)@ + spec_join(dp.take(i + 1), 0));
                } else {
                    assert(dp.take(1) =~= seq![dp[0]]);
                    assert(buf@ =~= old(buf)@ + spec_join(dp.take(1), 0));
                }
            }
            i = i + 1;
        }
        proof {
            assert(spec_dump_parts(self@).take(self@.len() as int) =~= spec_dump_parts(self@));
        }
    }

    /// Whether the dictionary has no pairs.
    pub fn is_empty(&self) -> (r: bool)
        ensures
            r == (self@.len() == 0),
    {
        self.data.len() == 0
    }
}

/// Insert a pair into the vector at its sorted position.
fn self_insert(e: &mut ChangesetExtra, key: Vec<u8>, value: Vec<u8>)
    requires
        old(e).well_formed(),
    ensures
        final(e)@ == spec_insert(old(e)@, key@, value@),
        final(e).well_formed(),
{
    let ghost ps = e@;
    let i = insert_pos(&e.data, key.as_slice());
    proof {
        assert forall|j: int| 0 <= j < i implies key_lt(#[trigger] ps[j].0, key@) by {
            assert(ps[j].0 == e.data@[j].0@);
        }
        lemma_insert_at(ps, key@, value@, i as int);
    }
    if i < e.data.len() && bytes_eq(e.data[i].0.as_slice(), key.as_slice()) {
        proof {
            assert(ps[i as int].0 == e.data@[i as int].0@);
        }
        e.data[i] = (key, value);
        proof {
            assert(e@ =~= ps.update(i as int, (key@, value@)));
        }
    } else {
        proof {
            if i < ps.len() {
                assert(ps[i as int].0 == e.data@[i as int].0@);
                assert(ps[i as int].0 != key@);
                assert(!key_lt(ps[i as int].0, key@));
                crate::bytes::lemma_lex_total(key@, ps[i as int].0);
                assert(key_lt(key@, ps[i as int].0));
                assert(ps.skip(i as int)[0] == ps[i as int]);
                assert(spec_insert(ps.skip(i as int), key@, value@) == seq![(key@, value@)]
                    + ps.skip(i as int));
            } else {
                assert(ps.skip(i as int) =~= Seq::<(Seq<u8>, Seq<u8>)>::empty());
            }
        }
        e.data.insert(i, (key, value));
        proof {
            assert(e@ =~= ps.take(i as int) + spec_insert(ps.skip(i as int), key@, value@));
        }
    }
    proof {
        lemma_insert_sorted(ps, key@, value@);
    }
}

/// The sorted position for `key`: past every strictly smaller key.
fn insert_pos(data: &Vec<(Vec<u8>, Vec<u8>)>, key: &[u8]) -> (r: usize)
    ensures
        r <= data@.len(),
        forall|j: int| 0 <= j < r ==> key_lt(#[trigger] data@[j].0@, key@),
        r < data@.len() ==> !key_lt(data@[r as int].0@, key@),
{
    let mut i: usize = 0;
    while i < data.len()
        invariant
            0 <= i <= data@.len(),
            forall|j: int| 0 <= j < i ==> key_lt(#[trigger] data@[j].0@, key@),
        decreases data@.len() - i,
    {
        let le = lex_le(data[i].0.as_slice(), key);
        let eq = bytes_eq(data[i].0.as_slice(), key);
        if !le || eq {
            return i;
        }
        i = i + 1;
    }
    i
}

/// An insertion whose key exceeds the first `i` keys acts on the tail.
proof fn lemma_insert_at(ps: Seq<(Seq<u8>, Seq<u8>)>, k: Seq<u8>, v: Seq<u8>, i: int)
    requires
        0 <= i <= ps.len(),
        forall|j: int| 0 <= j < i ==> key_lt(#[trigger] ps[j].0, k),
    ensures
        spec_insert(ps, k, v) == ps.take(i) + spec_insert(ps.skip(i), k, v),
        i < ps.len() && ps[i].0 == k ==> spec_insert(ps, k, v) == ps.update(i, (k, v)),
    decreases i,
{
    if i == 0 {
        assert(ps.take(0) =~= Seq::<(Seq<u8>, Seq<u8>)>::empty());
        assert(ps.skip(0) =~= ps);
        assert(spec_insert(ps, k, v) =~= ps.take(0) + spec_insert(ps.skip(0), k, v));
        if 0 < ps.len() && ps[0].0 == k {
            assert(spec_insert(ps, k, v) =~= ps.update(0, (k, v)));
        }
    } else {
        assert(key_lt(ps[0].0, k));
        assert(ps[0].0 != k);
        if key_lt(k, ps[0].0) {
            crate::bytes::lemma_lex_total(k, ps[0].0);
            assert(false);
        }
        assert forall|j: int| 0 <= j < i - 1 implies key_lt(#[trigger] ps.drop_first()[j].0, k) by {
            assert(ps.drop_first()[j] == ps[j + 1]);
        }
        lemma_insert_at(ps.drop_first(), k, v, i - 1);
        assert(ps.drop_first().take(i - 1) =~= ps.take(i).drop_first());
        assert(ps.drop_first().skip(i - 1) =~= ps.skip(i));
        assert(spec_insert(ps, k, v) =~= ps.take(i) + spec_insert(ps.skip(i), k, v));
        if i < ps.len() && ps[i].0 == k {
            assert(ps.drop_first()[i - 1].0 == k);
            assert(spec_insert(ps.drop_first(), k, v) == ps.drop_first().update(i - 1, (k, v)));
            assert(spec_insert(ps, k, v) =~= ps.update(i, (k, v)));
        }
    }
}

/// Removing a key that first occurs at `i` drops exactly that pair.
proof fn lemma_remove_at(ps: Seq<(Seq<u8>, Seq<u8>)>, k: Seq<u8>, i: int)
    requires
        0 <= i < ps.len(),
        ps[i].0 == k,
        forall|j: int| 0 <= j < i ==> #[trigger] ps[j].0 != k,
    ensures
        spec_remove(ps, k) == ps.take(i) + ps.skip(i + 1),
    decreases i,
{
    if i == 0 {
        assert(spec_remove(ps, k) =~= ps.take(0) + ps.skip(1));
    } else {
        assert forall|j: int| 0 <= j < i - 1 implies #[trigger] ps.drop_first()[j].0 != k by {
            assert(ps.drop_first()[j] == ps[j + 1]);
        }
        assert(ps.drop_first()[i - 1] == ps[i]);
        lemma_remove_at(ps.drop_first(), k, i - 1);
        assert(ps.drop_first().take(i - 1) =~= ps.take(i).drop_first());
        assert(ps.drop_first().skip(i) =~= ps.skip(i + 1));
        assert(spec_remove(ps, k) =~= ps.take(i) + ps.skip(i + 1));
    }
}

/// Removing an absent key changes nothing.
proof fn lemma_remove_absent(ps: Seq<(Seq<u8>, Seq<u8>)>, k: Seq<u8>)
    requires
        forall|j: int| 0 <= j < ps.len() ==> #[trigger] ps[j].0 != k,
    ensures
        spec_remove(ps, k) == ps,
    decreases ps.len(),
{
    if ps.len() > 0 {
        assert forall|j: int| 0 <= j < ps.drop_first().len()
            implies #[trigger] ps.drop_first()[j].0 != k by {
            assert(ps.drop_first()[j] == ps[j + 1]);
        }
        lemma_remove_absent(ps.drop_first(), k);
        assert(spec_remove(ps, k) =~= ps);
    }
}

/// Dropping one pair of a sorted sequence keeps it sorted.
proof fn lemma_sorted_without(ps: Seq<(Seq<u8>, Seq<u8>)>, i: int)
    requires
        pairs_sorted(ps),
        0 <= i < ps.len(),
    ensures
        pairs_sorted(ps.take(i) + ps.skip(i + 1)),
{
    let r = ps.take(i) + ps.skip(i + 1);
    assert forall|a: int, b: int| 0 <= a < b < r.len() implies key_lt(
        #[trigger] r[a].0,
        #[trigger] r[b].0,
    ) by {
        let oa = if a < i {
            a
        } else {
            a + 1
        };
        let ob = if b < i {
            b
        } else {
            b + 1
        };
        assert(r[a] == ps[oa]);
        assert(r[b] == ps[ob]);
    }
}

/// `dump_into` and `from` are mutual inverses on a well-formed, encodable
/// dictionary: parsing the dump yields the same pairs, in the same ascending
/// key order, and the dump never writes the same key twice.
pub proof fn lemma_extra_roundtrip(ps: Seq<(Seq<u8>, Seq<u8>)>)
    requires
        pairs_sorted(ps),
        pairs_encodable(ps),
        ps.len() > 0,
    ensures
        spec_extra_from(spec_dump(ps)) == ps,
        forall|i: int, j: int| 0 <= i < j < ps.len() ==> #[trigger] ps[i].0 != #[trigger] ps[j].0,
{
    let dp = spec_dump_parts(ps);
    assert forall|i: int| 0 <= i < dp.len() implies !spec_contains_byte(#[trigger] dp[i], 0) by {
        let part = dp[i];
        assert(part == ps[i].0 + seq![0x3Au8] + ps[i].1);
        if spec_contains_byte(part, 0) {
            let j = choose|j: int| 0 <= j < part.len() && part[j] == 0;
            if j < ps[i].0.len() {
                assert(ps[i].0[j] == 0);
                assert(spec_contains_byte(ps[i].0, 0));
            } else if j == ps[i].0.len() {
                assert(part[j] == 0x3A);
            } else {
                assert(ps[i].1[j - ps[i].0.len() - 1] == 0);
                assert(spec_contains_byte(ps[i].1, 0));
            }
        }
    }
    lemma_split_join(dp, 0);
    let buf = spec_dump(ps);
    assert(buf.len() > 0) by {
        assert(dp[0].len() > 0);
        if ps.len() == 1 {
            assert(buf == dp[0]);
        } else {
            assert(buf == dp[0] + seq![0u8] + spec_join(dp.drop_first(), 0));
        }
    }
    assert forall|i: int| 0 <= i < dp.len() implies spec_parse_pair(#[trigger] dp[i]) == ps[i] by {
        let part = dp[i];
        let k = ps[i].0;
        let v = ps[i].1;
        assert(part =~= k + seq![0x3Au8] + v);
        assert forall|j: int| 0 <= j < k.len() implies part[j] != 0x3A by {
            assert(part[j] == k[j]);
            assert(!spec_contains_byte(k, 0x3A));
        }
        assert(part[k.len() as int] == 0x3A);
        lemma_find_first(part, 0x3A, k.len() as int);
        assert(part.take(k.len() as int) =~= k);
        assert(part.skip(k.len() as int + 1) =~= v);
    }
    assert(Seq::<(Seq<u8>, Seq<u8>)>::empty() =~= ps.take(0));
    assert(dp.skip(0) =~= dp);
    assert forall|j: int| 0 <= j < dp.skip(0).len() implies spec_parse_pair(
        #[trigger] dp.skip(0)[j],
    ) == ps[j] by {
        assert(dp.skip(0)[j] == dp[j]);
    }
    lemma_fold_dump(ps, 0, ps.take(0));
    assert(spec_extra_from(spec_dump(ps)) == spec_from_rec(ps.take(0), dp.skip(0)));
    assert forall|i: int, j: int| 0 <= i < j < ps.len() implies #[trigger] ps[i].0
        != #[trigger] ps[j].0 by {
        assert(key_lt(ps[i].0, ps[j].0));
    }
}

/// Inserting an encodable pair keeps the dictionary encodable.
pub proof fn lemma_insert_encodable(ps: Seq<(Seq<u8>, Seq<u8>)>, k: Seq<u8>, v: Seq<u8>)
    requires
        pairs_encodable(ps),
        !spec_contains_byte(k, 0),
        !spec_contains_byte(k, 0x3A),
        !spec_contains_byte(v, 0),
    ensures
        pairs_encodable(spec_insert(ps, k, v)),
    decreases ps.len(),
{
    let r = spec_insert(ps, k, v);
    if ps.len() == 0 {
        assert forall|i: int| 0 <= i < r.len() implies !spec_contains_byte(#[trigger] r[i].0, 0)
            && !spec_contains_byte(r[i].0, 0x3A) && !spec_contains_byte(r[i].1, 0) by {
            assert(r[i] == (k, v));
        }
    } else if ps[0].0 == k || key_lt(k, ps[0].0) {
        assert forall|i: int| 0 <= i < r.len() implies !spec_contains_byte(#[trigger] r[i].0, 0)
            && !spec_contains_byte(r[i].0, 0x3A) && !spec_contains_byte(r[i].1, 0) by {
            if i == 0 {
                assert(r[0] == (k, v));
            } else if ps[0].0 == k {
                assert(r[i] == ps.drop_first()[i - 1]);
                assert(ps.drop_first()[i - 1] == ps[i]);
            } else {
                assert(r[i] == ps[i - 1]);
            }
        }
    } else {
        assert(pairs_encodable(ps.drop_first())) by {
            assert forall|i: int| 0 <= i < ps.drop_first().len() implies !spec_contains_byte(
                (#[trigger] ps.drop_first()[i]).0,
                0,
            ) && !spec_contains_byte(ps.drop_first()[i].0, 0x3A) && !spec_contains_byte(
                ps.drop_first()[i].1,
                0,
            ) by {
                assert(ps.drop_first()[i] == ps[i + 1]);
            }
        }
        lemma_insert_encodable(ps.drop_first(), k, v);
        let rt = spec_insert(ps.drop_first(), k, v);
        assert forall|i: int| 0 <= i < r.len() implies !spec_contains_byte(#[trigger] r[i].0, 0)
            && !spec_contains_byte(r[i].0, 0x3A) && !spec_contains_byte(r[i].1, 0) by {
            if i == 0 {
                assert(r[0] == ps[0]);
            } else {
                assert(r[i] == rt[i - 1]);
            }
        }
    }
}

/// Removing a key keeps the dictionary encodable.
pub proof fn lemma_remove_encodable(ps: Seq<(Seq<u8>, Seq<u8>)>, k: Seq<u8>)
    requires
        pairs_encodable(ps),
    ensures
        pairs_encodable(spec_remove(ps, k)),
    decreases ps.len(),
{
    let r = spec_remove(ps, k);
    if ps.len() > 0 {
        assert(pairs_encodable(ps.drop_first())) by {
            assert forall|i: int| 0 <= i < ps.drop_first().len() implies !spec_contains_byte(
                (#[trigger] ps.drop_first()[i]).0,
                0,
            ) && !spec_contains_byte(ps.drop_first()[i].0, 0x3A) && !spec_contains_byte(
                ps.drop_first()[i].1,
                0,
            ) by {
                assert(ps.drop_first()[i] == ps[i + 1]);
            }
        }
        if ps[0].0 == k {
        } else {
            lemma_remove_encodable(ps.drop_first(), k);
            let rt = spec_remove(ps.drop_first(), k);
            assert forall|i: int| 0 <= i < r.len() implies !spec_contains_byte(
                #[trigger] r[i].0,
                0,
            ) && !spec_contains_byte(r[i].0, 0x3A) && !spec_contains_byte(r[i].1, 0) by {
                if i == 0 {
                    assert(r[0] == ps[0]);
                } else {
                    assert(r[i] == rt[i - 1]);
                }
            }
        }
    }
}

/// Whatever it parses from, a dictionary is encodable: keys stop at the
/// first colon of a NUL-free part, values are the NUL-free rest.
pub proof fn lemma_from_encodable(buf: Seq<u8>)
    ensures
        pairs_encodable(spec_extra_from(buf)),
{
    if buf.len() == 0 {
    } else {
        crate::bytes::lemma_split_parts_free(buf, 0);
        lemma_from_rec_encodable(Seq::empty(), spec_split(buf, 0));
    }
}

proof fn lemma_from_rec_encodable(acc: Seq<(Seq<u8>, Seq<u8>)>, parts: Seq<Seq<u8>>)
    requires
        pairs_encodable(acc),
        forall|i: int| 0 <= i < parts.len() ==> !spec_contains_byte(#[trigger] parts[i], 0),
    ensures
        pairs_encodable(spec_from_rec(acc, parts)),
    decreases parts.len(),
{
    if parts.len() > 0 {
        let part = parts[0];
        let k = spec_parse_pair(part).0;
        let v = spec_parse_pair(part).1;
        crate::bytes::lemma_find_byte_props(part, 0x3A, 0);
        assert(!spec_contains_byte(k, 0) && !spec_contains_byte(k, 0x3A) && !spec_contains_byte(
            v,
            0,
        )) by {
            match crate::bytes::spec_find_byte(part, 0x3A, 0) {
                Some(c) => {
                    assert forall|j: int| 0 <= j < k.len() implies k[j] != 0 && k[j] != 0x3A by {
                        assert(k[j] == part[j]);
                        assert(!spec_contains_byte(part, 0));
                    }
                    assert forall|j: int| 0 <= j < v.len() implies v[j] != 0 by {
                        assert(v[j] == part[c + 1 + j]);
                        assert(!spec_contains_byte(part, 0));
                    }
                },
                None => {
                    assert forall|j: int| 0 <= j < k.len() implies k[j] != 0 && k[j] != 0x3A by {
                        assert(!spec_contains_byte(part, 0));
                    }
                },
            }
        }
        lemma_insert_encodable(acc, k, v);
        assert forall|i: int| 0 <= i < parts.drop_first().len() implies !spec_contains_byte(
            #[trigger] parts.drop_first()[i],
            0,
        ) by {
            assert(parts.drop_first()[i] == parts[i + 1]);
        }
        lemma_from_rec_encodable(spec_insert(acc, k, v), parts.drop_first());
    }
}

/// The dump of a non-empty encodable dictionary is itself a well-shaped
/// serialized dictionary: non-empty, and every NUL-separated part carries a
/// colon.
pub proof fn lemma_dump_buf_wf(ps: Seq<(Seq<u8>, Seq<u8>)>)
    requires
        pairs_encodable(ps),
        ps.len() > 0,
    ensures
        spec_extra_buf_wf(spec_dump(ps)),
        spec_dump(ps).len() > 0,
{
    let dp = spec_dump_parts(ps);
    assert forall|i: int| 0 <= i < dp.len() implies !spec_contains_byte(#[trigger] dp[i], 0) by {
        let part = dp[i];
        assert(part == ps[i].0 + seq![0x3Au8] + ps[i].1);
        if spec_contains_byte(part, 0) {
            let j = choose|j: int| 0 <= j < part.len() && part[j] == 0;
            if j < ps[i].0.len() {
                assert(ps[i].0[j] == 0);
                assert(spec_contains_byte(ps[i].0, 0));
            } else if j == ps[i].0.len() {
                assert(part[j] == 0x3A);
            } else {
                assert(ps[i].1[j - ps[i].0.len() - 1] == 0);
                assert(spec_contains_byte(ps[i].1, 0));
            }
        }
    }
    lemma_split_join(dp, 0);
    let buf = spec_dump(ps);
    assert(buf.len() > 0) by {
        assert(dp[0].len() > 0);
        if ps.len() == 1 {
            assert(buf == dp[0]);
        } else {
            assert(buf == dp[0] + seq![0u8] + spec_join(dp.drop_first(), 0));
        }
    }
    assert forall|i: int| 0 <= i < spec_split(buf, 0).len() implies spec_contains_byte(
        #[trigger] spec_split(buf, 0)[i],
        0x3A,
    ) by {
        assert(spec_split(buf, 0)[i] == dp[i]);
        assert(dp[i][ps[i].0.len() as int] == 0x3A);
    }
}

/// Folding the dump parts of a sorted dictionary from position `i` onto its
/// first `i` pairs rebuilds the dictionary.
proof fn lemma_fold_dump(ps: Seq<(Seq<u8>, Seq<u8>)>, i: int, acc: Seq<(Seq<u8>, Seq<u8>)>)
    requires
        pairs_sorted(ps),
        0 <= i <= ps.len(),
        acc == ps.take(i),
        forall|j: int| 0 <= j < spec_dump_parts(ps).skip(i).len()
            ==> spec_parse_pair(#[trigger] spec_dump_parts(ps).skip(i)[j]) == ps[i + j],
    ensures
        spec_from_rec(acc, spec_dump_parts(ps).skip(i)) == ps,
    decreases ps.len() - i,
{
    let dp = spec_dump_parts(ps);
    if i == ps.len() {
        assert(dp.skip(i) =~= Seq::<Seq<u8>>::empty());
        assert(acc =~= ps);
    } else {
        let rest = dp.skip(i);
        assert(rest[0] == dp[i]);
        assert(spec_parse_pair(rest[0]) == ps[i]);
        assert forall|j: int| 0 <= j < acc.len() implies key_lt(#[trigger] acc[j].0, ps[i].0) by {
            assert(acc[j] == ps[j]);
        }
        lemma_insert_append(acc, ps[i].0, ps[i].1);
        assert(acc.push((ps[i].0, ps[i].1)) =~= ps.take(i + 1));
        assert(rest.drop_first() =~= dp.skip(i + 1));
        assert forall|j: int| 0 <= j < dp.skip(i + 1).len() implies spec_parse_pair(
            #[trigger] dp.skip(i + 1)[j],
        ) == ps[i + 1 + j] by {
            assert(dp.skip(i + 1)[j] == dp.skip(i)[j + 1]);
        }
        lemma_fold_dump(ps, i + 1, ps.take(i + 1));
    }
}

} // verus!
