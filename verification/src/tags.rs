//! Tag sets: an insertion-ordered map from tag name to the changeset it
//! points at, each entry carrying the history of changesets the tag pointed
//! at before, merged across heads with the foreign system's tag-merge rule.

use vstd::prelude::*;

use crate::bytes::{bytes_eq, spec_split, views};
use crate::oid::{spec_null_oid, spec_parse_oid, HgChangesetId};

verus! {

/// One tag: its name, the changeset it points at, and the earlier
/// changesets it pointed at.
#[derive(Debug)]
pub struct TagEntry {
    pub tag: Vec<u8>,
    pub node: HgChangesetId,
    pub hist: Vec<HgChangesetId>,
}

/// The view of one entry.
pub open spec fn entry_view(e: TagEntry) -> (Seq<u8>, Seq<u8>, Seq<Seq<u8>>) {
    (e.tag@, e.node@, e.hist@.map_values(|h: HgChangesetId| h@))
}

/// A set of tags, in insertion order.
#[derive(Debug)]
pub struct TagSet {
    pub entries: Vec<TagEntry>,
}

impl View for TagSet {
    type V = Seq<(Seq<u8>, Seq<u8>, Seq<Seq<u8>>)>;

    open spec fn view(&self) -> Seq<(Seq<u8>, Seq<u8>, Seq<Seq<u8>>)> {
        self.entries@.map_values(|e: TagEntry| entry_view(e))
    }
}

/// The index of the entry for `tag`, if any.
pub open spec fn spec_find_tag(
    es: Seq<(Seq<u8>, Seq<u8>, Seq<Seq<u8>>)>,
    tag: Seq<u8>,
    i: int,
) -> Option<int>
    decreases es.len() - i,
{
    if i < 0 || i >= es.len() {
        None
    } else if es[i].0 == tag {
        Some(i)
    } else {
        spec_find_tag(es, tag, i + 1)
    }
}

/// The union of two histories: the first, then whatever of the second it
/// does not already hold, in order.
pub open spec fn spec_hist_union(x: Seq<Seq<u8>>, y: Seq<Seq<u8>>) -> Seq<Seq<u8>>
    decreases y.len(),
{
    if y.len() == 0 {
        x
    } else {
        spec_hist_union(
            if x.contains(y[0]) {
                x
            } else {
                x.push(y[0])
            },
            y.drop_first(),
        )
    }
}

/// The foreign tag-merge rule for one tag present on both sides: the present
/// node is kept only when the incoming node is already in the present
/// history and the incoming side does not supersede it by history; the
/// histories are united either way.
pub open spec fn spec_merge_entry(
    mine: (Seq<u8>, Seq<u8>, Seq<Seq<u8>>),
    theirs: (Seq<u8>, Seq<u8>, Seq<Seq<u8>>),
) -> (Seq<u8>, Seq<u8>, Seq<Seq<u8>>) {
    let keep_mine = mine.1 != theirs.1 && mine.2.contains(theirs.1) && (!theirs.2.contains(mine.1)
        || mine.2.len() > theirs.2.len());
    (mine.0, if keep_mine {
        mine.1
    } else {
        theirs.1
    }, spec_hist_union(mine.2, theirs.2))
}

/// Folding one incoming entry into the accumulated set.
pub open spec fn spec_merge_step(
    acc: Seq<(Seq<u8>, Seq<u8>, Seq<Seq<u8>>)>,
    oe: (Seq<u8>, Seq<u8>, Seq<Seq<u8>>),
) -> Seq<(Seq<u8>, Seq<u8>, Seq<Seq<u8>>)> {
    match spec_find_tag(acc, oe.0, 0) {
        Some(i) => acc.update(i, spec_merge_entry(acc[i], oe)),
        None => acc.push(oe),
    }
}

/// Folding every incoming entry, in order.
pub open spec fn spec_merge(
    acc: Seq<(Seq<u8>, Seq<u8>, Seq<Seq<u8>>)>,
    others: Seq<(Seq<u8>, Seq<u8>, Seq<Seq<u8>>)>,
) -> Seq<(Seq<u8>, Seq<u8>, Seq<Seq<u8>>)>
    decreases others.len(),
{
    if others.len() == 0 {
        acc
    } else {
        spec_merge(spec_merge_step(acc, others[0]), others.drop_first())
    }
}

/// Tags are pairwise distinct.
pub open spec fn tags_distinct(es: Seq<(Seq<u8>, Seq<u8>, Seq<Seq<u8>>)>) -> bool {
    forall|i: int, j: int| 0 <= i < j < es.len() ==> (#[trigger] es[i]).0 != (#[trigger] es[j]).0
}

/// What `spec_find_tag` returns: the first match.
pub proof fn lemma_find_tag_props(
    es: Seq<(Seq<u8>, Seq<u8>, Seq<Seq<u8>>)>,
    tag: Seq<u8>,
    i: int,
)
    requires
        0 <= i <= es.len(),
    ensures
        match spec_find_tag(es, tag, i) {
            Some(k) => i <= k < es.len() && es[k].0 == tag && forall|j: int|
                i <= j < k ==> (#[trigger] es[j]).0 != tag,
            None => forall|j: int| i <= j < es.len() ==> (#[trigger] es[j]).0 != tag,
        },
    decreases es.len() - i,
{
    if i < es.len() && es[i].0 != tag {
        lemma_find_tag_props(es, tag, i + 1);
    }
}

impl TagSet {
    /// An empty tag set.
    pub fn new() -> (r: Self)
        ensures
            r@ == Seq::<(Seq<u8>, Seq<u8>, Seq<Seq<u8>>)>::empty(),
            tags_distinct(r@),
    {
        let r = TagSet { entries: Vec::new() };
        proof {
            assert(r@ =~= Seq::<(Seq<u8>, Seq<u8>, Seq<Seq<u8>>)>::empty());
        }
        r
    }

    /// The index of the entry for `tag`, if any.
    fn find_tag(&self, tag: &[u8]) -> (r: Option<usize>)
        ensures
            match r {
                Some(k) => spec_find_tag(self@, tag@, 0) == Some(k as int),
                None => spec_find_tag(self@, tag@, 0) is None,
            },
    {
        let mut i: usize = 0;
        while i < self.entries.len()
            invariant
                0 <= i <= self@.len(),
                self@.len() == self.entries@.len(),
                spec_find_tag(self@, tag@, 0) == spec_find_tag(self@, tag@, i as int),
            decreases self@.len() - i,
        {
            proof {
                assert(self@[i as int] == entry_view(self.entries@[i as int]));
            }
            if bytes_eq(self.entries[i].tag.as_slice(), tag) {
                return Some(i);
            }
            i = i + 1;
        }
        None
    }

    /// Merge `other` into this set by the foreign tag-merge rule, keeping
    /// insertion order: present tags are merged entry-wise, new tags are
    /// appended in their incoming order.
    pub fn merge(&mut self, other: TagSet)
        requires
            tags_distinct(old(self)@),
        ensures
            final(self)@ == spec_merge(old(self)@, other@),
            tags_distinct(final(self)@),
    {
        let ghost a = self@;
        let ghost b = other@;
        let mut i: usize = 0;
        let n = other.entries.len();
        let mut incoming = other.entries;
        // fold the incoming entries from the front
        proof {
            assert(b.skip(0) =~= b);
        }
        while i < n
            invariant
                0 <= i <= n,
                n == incoming@.len(),
                incoming@.map_values(|e: TagEntry| entry_view(e)) == b,
                tags_distinct(self@),
                spec_merge(a, b) == spec_merge(self@, b.skip(i as int)),
            decreases n - i,
        {
            proof {
                assert(b.skip(i as int)[0] == b[i as int]);
                assert(b[i as int] == entry_view(incoming@[i as int]));
                assert(b.skip(i as int).drop_first() =~= b.skip(i + 1));
            }
            let oe_tag = vstd::slice::slice_to_vec(incoming[i].tag.as_slice());
            let oe_node = incoming[i].node;
            let oe_hist = clone_hist(&incoming[i].hist);
            match self.find_tag(oe_tag.as_slice()) {
                Some(k) => {
                    proof {
                        lemma_find_tag_props(self@, oe_tag@, 0);
                    }
                    let ghost before = self@;
                    let keep_mine = {
                        let mine = &self.entries[k];
                        let nodes_differ = !(mine.node == oe_node);
                        let mine_has_theirs = hist_contains(&mine.hist, &oe_node);
                        let theirs_has_mine = hist_contains(&oe_hist, &mine.node);
                        nodes_differ && mine_has_theirs && (!theirs_has_mine || mine.hist.len()
                            > oe_hist.len())
                    };
                    let entry = &mut self.entries[k];
                    if !keep_mine {
                        entry.node = oe_node;
                    }
                    hist_extend(&mut entry.hist, &oe_hist);
                    proof {
                        assert(self@ =~= before.update(
                            k as int,
                            spec_merge_entry(before[k as int], b[i as int]),
                        ));
                        assert(spec_merge_step(before, b[i as int]) == self@);
                        assert forall|x: int, y: int| 0 <= x < y < self@.len() implies (
                        #[trigger] self@[x]).0 != (#[trigger] self@[y]).0 by {
                            assert(self@[x].0 == before[x].0);
                            assert(self@[y].0 == before[y].0);
                        }
                    }
                },
                None => {
                    proof {
                        lemma_find_tag_props(self@, oe_tag@, 0);
                    }
                    let ghost before = self@;
                    self.entries.push(TagEntry { tag: oe_tag, node: oe_node, hist: oe_hist });
                    proof {
                        assert(self@ =~= before.push(b[i as int]));
                        assert(spec_merge_step(before, b[i as int]) == self@);
                        assert forall|x: int, y: int| 0 <= x < y < self@.len() implies (
                        #[trigger] self@[x]).0 != (#[trigger] self@[y]).0 by {
                            if y < before.len() {
                                assert(self@[x].0 == before[x].0);
                                assert(self@[y].0 == before[y].0);
                            } else {
                                assert(self@[x].0 == before[x].0);
                                assert(before[x].0 != b[i as int].0);
                            }
                        }
                    }
                },
            }
            i = i + 1;
        }
        proof {
            assert(b.skip(n as int) =~= Seq::<(Seq<u8>, Seq<u8>, Seq<Seq<u8>>)>::empty());
        }
    }

    /// The visible tags: every entry whose node is not the null id, with its
    /// node, in insertion order.
    pub fn iter(&self) -> (r: Vec<(Vec<u8>, HgChangesetId)>)
        ensures
            r@.map_values(|p: (Vec<u8>, HgChangesetId)| (p.0@, p.1@)) == spec_tag_pairs(self@),
    {
        let mut r: Vec<(Vec<u8>, HgChangesetId)> = Vec::new();
        let mut i: usize = 0;
        let null_id = HgChangesetId::null();
        proof {
            assert(self@.skip(0) =~= self@);
            assert(r@.map_values(|p: (Vec<u8>, HgChangesetId)| (p.0@, p.1@)) =~= Seq::<
                (Seq<u8>, Seq<u8>),
            >::empty());
        }
        while i < self.entries.len()
            invariant
                0 <= i <= self@.len(),
                self@.len() == self.entries@.len(),
                null_id@ == spec_null_oid(),
                spec_tag_pairs(self@) == r@.map_values(|p: (Vec<u8>, HgChangesetId)| (p.0@, p.1@))
                    + spec_tag_pairs(self@.skip(i as int)),
            decreases self@.len() - i,
        {
            proof {
                assert(self@[i as int] == entry_view(self.entries@[i as int]));
                assert(self@.skip(i as int)[0] == self@[i as int]);
                assert(self@.skip(i as int).drop_first() =~= self@.skip(i + 1));
            }
            let e = &self.entries[i];
            let ghost prev = r@.map_values(|p: (Vec<u8>, HgChangesetId)| (p.0@, p.1@));
            let is_null = e.node == null_id;
            proof {
                assert(is_null == (self.entries@[i as int].node@ == spec_null_oid()));
                assert(self@[i as int].1 == self.entries@[i as int].node@);
            }
            if !is_null {
                r.push((vstd::slice::slice_to_vec(e.tag.as_slice()), e.node));
                proof {
                    assert(r@.map_values(|p: (Vec<u8>, HgChangesetId)| (p.0@, p.1@)) =~= prev
                        + seq![(self@[i as int].0, self@[i as int].1)]);
                    assert(prev + (seq![(self@[i as int].0, self@[i as int].1)] + spec_tag_pairs(
                        self@.skip(i + 1),
                    )) =~= (prev + seq![(self@[i as int].0, self@[i as int].1)]) + spec_tag_pairs(
                        self@.skip(i + 1),
                    ));
                }
            } else {
                proof {
                    assert(self@[i as int].1 == spec_null_oid());
                    assert(spec_tag_pairs(self@.skip(i as int)) =~= spec_tag_pairs(self@.skip(i
                        + 1)));
                }
            }
            i = i + 1;
        }
        proof {
            assert(self@.skip(self@.len() as int) =~= Seq::<
                (Seq<u8>, Seq<u8>, Seq<Seq<u8>>),
            >::empty());
            assert(r@.map_values(|p: (Vec<u8>, HgChangesetId)| (p.0@, p.1@)) + Seq::<
                (Seq<u8>, Seq<u8>),
            >::empty() =~= r@.map_values(|p: (Vec<u8>, HgChangesetId)| (p.0@, p.1@)));
        }
        r
    }
}

/// An ASCII whitespace byte.
pub open spec fn spec_is_ws(b: u8) -> bool {
    b == 0x09 || b == 0x0A || b == 0x0B || b == 0x0C || b == 0x0D || b == 0x20
}

/// The bytes before any trailing whitespace run.
pub open spec fn spec_trim_end(s: Seq<u8>) -> Seq<u8>
    decreases s.len(),
{
    if s.len() > 0 && spec_is_ws(s.last()) {
        spec_trim_end(s.drop_last())
    } else {
        s
    }
}

/// The bytes after any leading whitespace run.
pub open spec fn spec_trim_start(s: Seq<u8>) -> Seq<u8>
    decreases s.len(),
{
    if s.len() > 0 && spec_is_ws(s[0]) {
        spec_trim_start(s.drop_first())
    } else {
        s
    }
}

/// Both ends trimmed of ASCII whitespace.
pub open spec fn spec_trim(s: Seq<u8>) -> Seq<u8> {
    spec_trim_start(spec_trim_end(s))
}

/// A history extended by the node it is about to be superseded by, unless
/// already recorded.
pub open spec fn spec_hist_push(h: Seq<Seq<u8>>, n: Seq<u8>) -> Seq<Seq<u8>> {
    if h.contains(n) {
        h
    } else {
        h.push(n)
    }
}

/// The effect of one `node tag` line on the collected entries: an empty line
/// changes nothing, a line without a space or with a malformed id fails, and
/// otherwise the tag's entry gains the new node, its old node moving into the
/// history.
pub open spec fn spec_tag_line_step(
    acc: Seq<(Seq<u8>, Seq<u8>, Seq<Seq<u8>>)>,
    line: Seq<u8>,
) -> Option<Seq<(Seq<u8>, Seq<u8>, Seq<Seq<u8>>)>> {
    if line.len() == 0 {
        Some(acc)
    } else {
        match crate::bytes::spec_find_byte(line, 0x20, 0) {
            None => None,
            Some(sp) => {
                let tag = spec_trim(line.skip(sp + 1));
                match spec_parse_oid(line.take(sp)) {
                    None => None,
                    Some(nv) => Some(
                        match spec_find_tag(acc, tag, 0) {
                            Some(k) => acc.update(
                                k,
                                (tag, nv, spec_hist_push(acc[k].2, acc[k].1)),
                            ),
                            None => acc.push((tag, nv, Seq::empty())),
                        },
                    ),
                }
            },
        }
    }
}

/// Folding every line of a tag file.
pub open spec fn spec_tag_lines(
    acc: Seq<(Seq<u8>, Seq<u8>, Seq<Seq<u8>>)>,
    lines: Seq<Seq<u8>>,
) -> Option<Seq<(Seq<u8>, Seq<u8>, Seq<Seq<u8>>)>>
    decreases lines.len(),
{
    if lines.len() == 0 {
        Some(acc)
    } else {
        match spec_tag_line_step(acc, lines[0]) {
            Some(a) => spec_tag_lines(a, lines.drop_first()),
            None => None,
        }
    }
}

/// What a tag file's bytes parse to.
pub open spec fn spec_tagset_from(buf: Seq<u8>) -> Option<Seq<(Seq<u8>, Seq<u8>, Seq<Seq<u8>>)>> {
    spec_tag_lines(Seq::empty(), spec_split(buf, 0x0A))
}

impl TagSet {
    /// Parse a tag file: one `node tag` line at a time, empty lines skipped,
    /// trailing whitespace of a tag trimmed, the newest node first and
    /// earlier nodes kept as history. `None` on a malformed line.
    pub fn from_buf(buf: &[u8]) -> (r: Option<TagSet>)
        ensures
            match r {
                Some(ts) => spec_tagset_from(buf@) == Some(ts@) && tags_distinct(ts@),
                None => spec_tagset_from(buf@) is None,
            },
    {
        let lines = crate::bytes::split_byte(buf, 0x0A);
        let mut out = TagSet::new();
        let mut i: usize = 0;
        let ghost lv = views(lines@);
        proof {
            assert(lv.skip(0) =~= lv);
        }
        while i < lines.len()
            invariant
                0 <= i <= lines@.len(),
                lv == views(lines@),
                lv == spec_split(buf@, 0x0A),
                tags_distinct(out@),
                spec_tagset_from(buf@) == spec_tag_lines(out@, lv.skip(i as int)),
            decreases lines@.len() - i,
        {
            proof {
                assert(lv.skip(i as int)[0] == lv[i as int]);
                assert(lv[i as int] == lines@[i as int]@);
                assert(lv.skip(i as int).drop_first() =~= lv.skip(i + 1));
            }
            let line = &lines[i];
            if line.len() == 0 {
                i = i + 1;
                continue ;
            }
            let sp = match crate::bytes::find_byte(line.as_slice(), 0x20) {
                Some(sp) => sp,
                None => {
                    return None;
                },
            };
            proof {
                crate::bytes::lemma_find_byte_props(line@, 0x20, 0);
            }
            let node = match HgChangesetId::from_bytes(vstd::slice::slice_subrange(
                line.as_slice(),
                0,
                sp,
            )) {
                Some(nv) => nv,
                None => {
                    proof {
                        assert(line@.subrange(0, sp as int) =~= line@.take(sp as int));
                    }
                    return None;
                },
            };
            proof {
                assert(line@.subrange(0, sp as int) =~= line@.take(sp as int));
            }
            let n = line.len();
            let rawtag = vstd::slice::slice_subrange(line.as_slice(), sp + 1, n);
            let tag = trim_ws(rawtag);
            proof {
                assert(rawtag@ =~= line@.skip(sp as int + 1));
            }
            let ghost before = out@;
            match out.find_tag(tag.as_slice()) {
                Some(k) => {
                    proof {
                        lemma_find_tag_props(out@, tag@, 0);
                    }
                    let old_node = out.entries[k].node;
                    let present = hist_contains(&out.entries[k].hist, &old_node);
                    let mut new_hist = clone_hist(&out.entries[k].hist);
                    if !present {
                        new_hist.push(old_node);
                    }
                    proof {
                        assert(new_hist@.map_values(|h: HgChangesetId| h@) =~= spec_hist_push(
                            before[k as int].2,
                            before[k as int].1,
                        )) by {
                            assert(before[k as int].2 == out.entries@[k as int].hist@.map_values(
                                |h: HgChangesetId| h@,
                            ));
                            assert(before[k as int].1 == out.entries@[k as int].node@);
                            if !present {
                                assert(new_hist@ =~= out.entries@[k as int].hist@.push(old_node));
                            }
                        }
                    }
                    out.entries[k] = TagEntry { tag, node, hist: new_hist };
                    proof {
                        assert(before[k as int].0 == tag@);
                        assert(out@ =~= before.update(
                            k as int,
                            (tag@, node@, spec_hist_push(before[k as int].2, before[k as int].1)),
                        ));
                        assert forall|x: int, y: int| 0 <= x < y < out@.len() implies (
                        #[trigger] out@[x]).0 != (#[trigger] out@[y]).0 by {
                            assert(out@[x].0 == before[x].0);
                            assert(out@[y].0 == before[y].0);
                        }
                    }
                },
                None => {
                    proof {
                        lemma_find_tag_props(out@, tag@, 0);
                    }
                    let empty_hist: Vec<HgChangesetId> = Vec::new();
                    proof {
                        assert(empty_hist@.map_values(|h: HgChangesetId| h@) =~= Seq::<
                            Seq<u8>,
                        >::empty());
                    }
                    out.entries.push(TagEntry { tag, node, hist: empty_hist });
                    proof {
                        assert(out@ =~= before.push((tag@, node@, Seq::empty())));
                        assert forall|x: int, y: int| 0 <= x < y < out@.len() implies (
                        #[trigger] out@[x]).0 != (#[trigger] out@[y]).0 by {
                            if y < before.len() {
                                assert(out@[x].0 == before[x].0);
                                assert(out@[y].0 == before[y].0);
                            } else {
                                assert(out@[x].0 == before[x].0);
                            }
                        }
                    }
                },
            }
            i = i + 1;
        }
        proof {
            assert(lv.skip(lines@.len() as int) =~= Seq::<Seq<u8>>::empty());
        }
        Some(out)
    }
}

/// Whether a byte is ASCII whitespace.
fn is_ws(b: u8) -> (r: bool)
    ensures
        r == spec_is_ws(b),
{
    b == 0x09 || b == 0x0A || b == 0x0B || b == 0x0C || b == 0x0D || b == 0x20
}

/// Trim ASCII whitespace from both ends.
fn trim_ws(s: &[u8]) -> (r: Vec<u8>)
    ensures
        r@ == spec_trim(s@),
{
    let mut end: usize = s.len();
    proof {
        assert(s@.take(s@.len() as int) =~= s@);
    }
    while end > 0 && is_ws(s[end - 1])
        invariant
            0 <= end <= s@.len(),
            spec_trim_end(s@) == spec_trim_end(s@.take(end as int)),
        decreases end,
    {
        proof {
            assert(s@.take(end as int).last() == s@[end - 1]);
            assert(s@.take(end as int).drop_last() =~= s@.take(end - 1));
        }
        end = end - 1;
    }
    proof {
        if end > 0 {
            assert(s@.take(end as int).last() == s@[end - 1]);
        }
        assert(spec_trim_end(s@) == s@.take(end as int));
    }
    let trimmed_end = vstd::slice::slice_subrange(s, 0, end);
    let ghost te = spec_trim_end(s@);
    let mut start: usize = 0;
    proof {
        assert(te.skip(0) =~= te);
    }
    while start < end && is_ws(trimmed_end[start])
        invariant
            0 <= start <= end,
            end <= s@.len(),
            trimmed_end@ == s@.take(end as int),
            te == spec_trim_end(s@),
            te == trimmed_end@,
            spec_trim_start(te) == spec_trim_start(te.skip(start as int)),
        decreases end - start,
    {
        proof {
            assert(te.skip(start as int)[0] == te[start as int]);
            assert(te.skip(start as int).drop_first() =~= te.skip(start as int + 1));
        }
        start = start + 1;
    }
    proof {
        if start < end {
            assert(te.skip(start as int)[0] == te[start as int]);
        }
        assert(spec_trim_start(te.skip(start as int)) == te.skip(start as int));
        assert(spec_trim(s@) == te.skip(start as int));
    }
    let r = vstd::slice::slice_to_vec(vstd::slice::slice_subrange(trimmed_end, start, end));
    proof {
        assert(r@ =~= te.skip(start as int));
    }
    r
}

impl PartialEq for TagSet {
    /// Two tag sets are equal when they make the same tags visible, pointing
    /// at the same changesets, regardless of entry order and history.
    fn eq(&self, other: &Self) -> (r: bool) {
        let xs = self.iter();
        let ys = other.iter();
        let fwd = pairs_subset(&xs, &ys);
        let bwd = pairs_subset(&ys, &xs);
        proof {
            let xv = xs@.map_values(|p: (Vec<u8>, HgChangesetId)| (p.0@, p.1@));
            let yv = ys@.map_values(|p: (Vec<u8>, HgChangesetId)| (p.0@, p.1@));
            if fwd && bwd {
                assert forall|p: (Seq<u8>, Seq<u8>)| #[trigger] spec_tag_pairs(self@).contains(p)
                    <==> spec_tag_pairs(other@).contains(p) by {
                    if xv.contains(p) {
                        let m = choose|m: int| 0 <= m < xv.len() && xv[m] == p;
                        assert(xv[m] == (xs@[m].0@, xs@[m].1@));
                        assert(yv.contains(p));
                    }
                    if yv.contains(p) {
                        let m = choose|m: int| 0 <= m < yv.len() && yv[m] == p;
                        assert(yv[m] == (ys@[m].0@, ys@[m].1@));
                        assert(xv.contains(p));
                    }
                }
            }
            if !fwd {
                let m = choose|m: int| 0 <= m < xs@.len() && !yv.contains(
                    (#[trigger] xs@[m].0@, xs@[m].1@),
                );
                let p = (xs@[m].0@, xs@[m].1@);
                assert(xv[m] == p);
                assert(xv.contains(p));
                assert(!(spec_tag_pairs(self@).contains(p) <==> spec_tag_pairs(other@).contains(
                    p,
                )));
            }
            if fwd && !bwd {
                let m = choose|m: int| 0 <= m < ys@.len() && !xv.contains(
                    (#[trigger] ys@[m].0@, ys@[m].1@),
                );
                let p = (ys@[m].0@, ys@[m].1@);
                assert(yv[m] == p);
                assert(yv.contains(p));
                assert(!(spec_tag_pairs(self@).contains(p) <==> spec_tag_pairs(other@).contains(
                    p,
                )));
            }
        }
        fwd && bwd
    }
}

impl Eq for TagSet {

}

impl vstd::std_specs::cmp::PartialEqSpecImpl for TagSet {
    open spec fn obeys_eq_spec() -> bool {
        true
    }

    open spec fn eq_spec(&self, other: &Self) -> bool {
        forall|p: (Seq<u8>, Seq<u8>)| #[trigger] spec_tag_pairs(self@).contains(p)
            <==> spec_tag_pairs(other@).contains(p)
    }
}

/// Every pair of `xs` occurs in `ys`.
fn pairs_subset(xs: &Vec<(Vec<u8>, HgChangesetId)>, ys: &Vec<(Vec<u8>, HgChangesetId)>) -> (r:
    bool)
    ensures
        r <==> (forall|i: int|
            0 <= i < xs@.len() ==> ys@.map_values(|p: (Vec<u8>, HgChangesetId)| (p.0@, p.1@)).contains(
                (#[trigger] xs@[i].0@, xs@[i].1@),
            )),
{
    let ghost yv = ys@.map_values(|p: (Vec<u8>, HgChangesetId)| (p.0@, p.1@));
    let mut i: usize = 0;
    while i < xs.len()
        invariant
            0 <= i <= xs@.len(),
            yv == ys@.map_values(|p: (Vec<u8>, HgChangesetId)| (p.0@, p.1@)),
            forall|j: int| 0 <= j < i ==> yv.contains((#[trigger] xs@[j].0@, xs@[j].1@)),
        decreases xs@.len() - i,
    {
        let mut found = false;
        let mut k: usize = 0;
        while k < ys.len()
            invariant
                0 <= k <= ys@.len(),
                0 <= i < xs@.len(),
                yv == ys@.map_values(|p: (Vec<u8>, HgChangesetId)| (p.0@, p.1@)),
                found ==> yv.contains((xs@[i as int].0@, xs@[i as int].1@)),
                !found ==> forall|m: int| 0 <= m < k ==> #[trigger] yv[m] != (
                    xs@[i as int].0@,
                    xs@[i as int].1@,
                ),
            decreases ys@.len() - k,
        {
            proof {
                assert(yv[k as int] == (ys@[k as int].0@, ys@[k as int].1@));
            }
            if bytes_eq(xs[i].0.as_slice(), ys[k].0.as_slice()) && xs[i].1 == ys[k].1 {
                proof {
                    assert(yv[k as int] == (xs@[i as int].0@, xs@[i as int].1@));
                }
                found = true;
            }
            k = k + 1;
        }
        if !found {
            proof {
                if yv.contains((xs@[i as int].0@, xs@[i as int].1@)) {
                    let m = choose|m: int| 0 <= m < yv.len() && yv[m] == (
                        xs@[i as int].0@,
                        xs@[i as int].1@,
                    );
                }
            }
            return false;
        }
        i = i + 1;
    }
    true
}

/// The visible (tag, node) pairs: entries whose node is not null.
pub open spec fn spec_tag_pairs(es: Seq<(Seq<u8>, Seq<u8>, Seq<Seq<u8>>)>) -> Seq<
    (Seq<u8>, Seq<u8>),
>
    decreases es.len(),
{
    if es.len() == 0 {
        Seq::empty()
    } else {
        (if es[0].1 != spec_null_oid() {
            seq![(es[0].0, es[0].1)]
        } else {
            Seq::<(Seq<u8>, Seq<u8>)>::empty()
        }) + spec_tag_pairs(es.drop_first())
    }
}

/// Copy a history.
fn clone_hist(h: &Vec<HgChangesetId>) -> (r: Vec<HgChangesetId>)
    ensures
        r@ == h@,
{
    let mut r: Vec<HgChangesetId> = Vec::new();
    let mut i: usize = 0;
    while i < h.len()
        invariant
            0 <= i <= h@.len(),
            r@ == h@.take(i as int),
        decreases h@.len() - i,
    {
        r.push(h[i]);
        proof {
            assert(h@.take(i + 1) =~= h@.take(i as int).push(h@[i as int]));
        }
        i = i + 1;
    }
    proof {
        assert(h@.take(h@.len() as int) =~= h@);
    }
    r
}

/// Whether a history holds `x`.
fn hist_contains(h: &Vec<HgChangesetId>, x: &HgChangesetId) -> (r: bool)
    ensures
        r == h@.map_values(|v: HgChangesetId| v@).contains(x@),
{
    let ghost hv = h@.map_values(|v: HgChangesetId| v@);
    let mut i: usize = 0;
    while i < h.len()
        invariant
            0 <= i <= h@.len(),
            hv == h@.map_values(|v: HgChangesetId| v@),
            forall|j: int| 0 <= j < i ==> #[trigger] hv[j] != x@,
        decreases h@.len() - i,
    {
        proof {
            assert(hv[i as int] == h@[i as int]@);
        }
        if h[i] == *x {
            proof {
                assert(hv[i as int] == x@);
            }
            return true;
        }
        i = i + 1;
    }
    proof {
        if hv.contains(x@) {
            let j = choose|j: int| 0 <= j < hv.len() && hv[j] == x@;
        }
    }
    false
}

/// Extend a history with whatever of `other` it does not already hold.
fn hist_extend(h: &mut Vec<HgChangesetId>, other: &Vec<HgChangesetId>)
    ensures
        final(h)@.map_values(|v: HgChangesetId| v@) == spec_hist_union(
            old(h)@.map_values(|v: HgChangesetId| v@),
            other@.map_values(|v: HgChangesetId| v@),
        ),
{
    let ghost ov = other@.map_values(|v: HgChangesetId| v@);
    let mut i: usize = 0;
    proof {
        assert(ov.skip(0) =~= ov);
    }
    while i < other.len()
        invariant
            0 <= i <= other@.len(),
            ov == other@.map_values(|v: HgChangesetId| v@),
            spec_hist_union(old(h)@.map_values(|v: HgChangesetId| v@), ov) == spec_hist_union(
                h@.map_values(|v: HgChangesetId| v@),
                ov.skip(i as int),
            ),
        decreases other@.len() - i,
    {
        proof {
            assert(ov.skip(i as int)[0] == ov[i as int]);
            assert(ov[i as int] == other@[i as int]@);
            assert(ov.skip(i as int).drop_first() =~= ov.skip(i + 1));
        }
        let present = hist_contains(h, &other[i]);
        if !present {
            let ghost hv = h@.map_values(|v: HgChangesetId| v@);
            h.push(other[i]);
            proof {
                assert(h@.map_values(|v: HgChangesetId| v@) =~= hv.push(ov[i as int]));
            }
        }
        i = i + 1;
    }
    proof {
        assert(ov.skip(other@.len() as int) =~= Seq::<Seq<u8>>::empty());
    }
}


/// The incoming entries whose tag the left side does not hold, in incoming
/// order.
pub open spec fn spec_new_entries(
    a: Seq<(Seq<u8>, Seq<u8>, Seq<Seq<u8>>)>,
    b: Seq<(Seq<u8>, Seq<u8>, Seq<Seq<u8>>)>,
) -> Seq<(Seq<u8>, Seq<u8>, Seq<Seq<u8>>)>
    decreases b.len(),
{
    if b.len() == 0 {
        Seq::empty()
    } else {
        (if spec_find_tag(a, b[0].0, 0) is None {
            seq![b[0]]
        } else {
            Seq::<(Seq<u8>, Seq<u8>, Seq<Seq<u8>>)>::empty()
        }) + spec_new_entries(a, b.drop_first())
    }
}

/// Finding a tag below a first entry that does not carry it.
proof fn lemma_find_tag_shift(b: Seq<(Seq<u8>, Seq<u8>, Seq<Seq<u8>>)>, t: Seq<u8>)
    requires
        b.len() > 0,
        b[0].0 != t,
    ensures
        match spec_find_tag(b.drop_first(), t, 0) {
            Some(m) => spec_find_tag(b, t, 0) == Some(m + 1),
            None => spec_find_tag(b, t, 0) is None,
        },
{
    lemma_find_tag_props(b, t, 0);
    lemma_find_tag_props(b.drop_first(), t, 0);
    match spec_find_tag(b.drop_first(), t, 0) {
        Some(m) => {
            assert(b.drop_first()[m] == b[m + 1]);
            match spec_find_tag(b, t, 0) {
                Some(k) => {
                    if k < m + 1 {
                        assert(b.drop_first()[k - 1].0 != t);
                    }
                    if m + 1 < k {
                        assert(b[m + 1].0 != t);
                    }
                },
                None => {
                    assert(b[m + 1].0 != t);
                },
            }
        },
        None => {
            match spec_find_tag(b, t, 0) {
                Some(k) => {
                    assert(b.drop_first()[k - 1].0 == t);
                },
                None => {
                },
            }
        },
    }
}

/// Two left sides with the same tags everywhere see the same new entries.
proof fn lemma_new_entries_same_tags(
    a: Seq<(Seq<u8>, Seq<u8>, Seq<Seq<u8>>)>,
    a1: Seq<(Seq<u8>, Seq<u8>, Seq<Seq<u8>>)>,
    rest: Seq<(Seq<u8>, Seq<u8>, Seq<Seq<u8>>)>,
)
    requires
        a.len() == a1.len(),
        forall|j: int| 0 <= j < a.len() ==> (#[trigger] a1[j]).0 == a[j].0,
    ensures
        spec_new_entries(a1, rest) == spec_new_entries(a, rest),
    decreases rest.len(),
{
    if rest.len() > 0 {
        lemma_new_entries_same_tags(a, a1, rest.drop_first());
        lemma_find_tag_props(a, rest[0].0, 0);
        lemma_find_tag_props(a1, rest[0].0, 0);
        match spec_find_tag(a, rest[0].0, 0) {
            Some(k) => {
                assert(a1[k].0 == rest[0].0);
                assert(spec_find_tag(a1, rest[0].0, 0) is Some) by {
                    if spec_find_tag(a1, rest[0].0, 0) is None {
                        assert(a1[k].0 != rest[0].0);
                    }
                }
            },
            None => {
                assert(spec_find_tag(a1, rest[0].0, 0) is None) by {
                    match spec_find_tag(a1, rest[0].0, 0) {
                        Some(k) => {
                            assert(a[k].0 == a1[k].0);
                        },
                        None => {
                        },
                    }
                }
            },
        }
    }
}

/// A left side extended by a tag no incoming entry carries sees the same new
/// entries.
proof fn lemma_new_entries_push(
    a: Seq<(Seq<u8>, Seq<u8>, Seq<Seq<u8>>)>,
    e: (Seq<u8>, Seq<u8>, Seq<Seq<u8>>),
    rest: Seq<(Seq<u8>, Seq<u8>, Seq<Seq<u8>>)>,
)
    requires
        forall|i: int| 0 <= i < rest.len() ==> (#[trigger] rest[i]).0 != e.0,
    ensures
        spec_new_entries(a.push(e), rest) == spec_new_entries(a, rest),
    decreases rest.len(),
{
    if rest.len() > 0 {
        assert forall|i: int| 0 <= i < rest.drop_first().len() implies (
        #[trigger] rest.drop_first()[i]).0 != e.0 by {
            assert(rest.drop_first()[i] == rest[i + 1]);
        }
        lemma_new_entries_push(a, e, rest.drop_first());
        lemma_find_tag_props(a, rest[0].0, 0);
        lemma_find_tag_props(a.push(e), rest[0].0, 0);
        match spec_find_tag(a, rest[0].0, 0) {
            Some(k) => {
                assert(a.push(e)[k].0 == rest[0].0);
                assert(spec_find_tag(a.push(e), rest[0].0, 0) is Some) by {
                    if spec_find_tag(a.push(e), rest[0].0, 0) is None {
                        assert(a.push(e)[k].0 != rest[0].0);
                    }
                }
            },
            None => {
                assert(spec_find_tag(a.push(e), rest[0].0, 0) is None) by {
                    match spec_find_tag(a.push(e), rest[0].0, 0) {
                        Some(k) => {
                            if k < a.len() {
                                assert(a[k].0 == rest[0].0);
                            } else {
                                assert(a.push(e)[k] == e);
                            }
                        },
                        None => {
                        },
                    }
                }
            },
        }
    }
}

/// New entries of a concatenation: those of each run.
proof fn lemma_new_entries_append(
    a: Seq<(Seq<u8>, Seq<u8>, Seq<Seq<u8>>)>,
    x: Seq<(Seq<u8>, Seq<u8>, Seq<Seq<u8>>)>,
    y: Seq<(Seq<u8>, Seq<u8>, Seq<Seq<u8>>)>,
)
    ensures
        spec_new_entries(a, x + y) == spec_new_entries(a, x) + spec_new_entries(a, y),
    decreases x.len(),
{
    if x.len() == 0 {
        assert(x + y =~= y);
        assert(spec_new_entries(a, x) =~= Seq::<(Seq<u8>, Seq<u8>, Seq<Seq<u8>>)>::empty());
        assert(spec_new_entries(a, x) + spec_new_entries(a, y) =~= spec_new_entries(a, y));
    } else {
        assert((x + y)[0] == x[0]);
        assert((x + y).drop_first() =~= x.drop_first() + y);
        lemma_new_entries_append(a, x.drop_first(), y);
        assert(spec_new_entries(a, x + y) =~= spec_new_entries(a, x) + spec_new_entries(a, y));
    }
}

/// Incoming entries all of whose tags the left side holds add nothing.
proof fn lemma_new_entries_none(
    a: Seq<(Seq<u8>, Seq<u8>, Seq<Seq<u8>>)>,
    x: Seq<(Seq<u8>, Seq<u8>, Seq<Seq<u8>>)>,
)
    requires
        forall|i: int| 0 <= i < x.len() ==> spec_find_tag(a, (#[trigger] x[i]).0, 0) is Some,
    ensures
        spec_new_entries(a, x) == Seq::<(Seq<u8>, Seq<u8>, Seq<Seq<u8>>)>::empty(),
    decreases x.len(),
{
    if x.len() > 0 {
        assert forall|i: int| 0 <= i < x.drop_first().len() implies spec_find_tag(
            a,
            (#[trigger] x.drop_first()[i]).0,
            0,
        ) is Some by {
            assert(x.drop_first()[i] == x[i + 1]);
        }
        lemma_new_entries_none(a, x.drop_first());
        assert(spec_new_entries(a, x) =~= Seq::<(Seq<u8>, Seq<u8>, Seq<Seq<u8>>)>::empty());
    }
}

/// Incoming entries none of whose tags the left side holds are all new.
proof fn lemma_new_entries_all(
    a: Seq<(Seq<u8>, Seq<u8>, Seq<Seq<u8>>)>,
    x: Seq<(Seq<u8>, Seq<u8>, Seq<Seq<u8>>)>,
)
    requires
        forall|i: int| 0 <= i < x.len() ==> spec_find_tag(a, (#[trigger] x[i]).0, 0) is None,
    ensures
        spec_new_entries(a, x) == x,
    decreases x.len(),
{
    if x.len() > 0 {
        assert forall|i: int| 0 <= i < x.drop_first().len() implies spec_find_tag(
            a,
            (#[trigger] x.drop_first()[i]).0,
            0,
        ) is None by {
            assert(x.drop_first()[i] == x[i + 1]);
        }
        lemma_new_entries_all(a, x.drop_first());
        assert(spec_new_entries(a, x) =~= x);
    }
}

/// What one merge produces, entry by entry: positions of the left side keep
/// their tag, merged with the matching incoming entry if any; the incoming
/// entries with new tags follow, unchanged, in incoming order.
proof fn lemma_merge_char(
    a: Seq<(Seq<u8>, Seq<u8>, Seq<Seq<u8>>)>,
    b: Seq<(Seq<u8>, Seq<u8>, Seq<Seq<u8>>)>,
)
    requires
        tags_distinct(a),
        tags_distinct(b),
    ensures
        spec_merge(a, b).len() == a.len() + spec_new_entries(a, b).len(),
        forall|j: int| 0 <= j < a.len() ==> (#[trigger] spec_merge(a, b)[j]) == (
        match spec_find_tag(b, a[j].0, 0) {
            Some(m) => spec_merge_entry(a[j], b[m]),
            None => a[j],
        }),
        spec_merge(a, b).skip(a.len() as int) == spec_new_entries(a, b),
        tags_distinct(spec_merge(a, b)),
    decreases b.len(),
{
    let c = spec_merge(a, b);
    if b.len() == 0 {
        assert(c == a);
        assert(c.skip(a.len() as int) =~= Seq::<(Seq<u8>, Seq<u8>, Seq<Seq<u8>>)>::empty());
        assert forall|j: int| 0 <= j < a.len() implies (#[trigger] c[j]) == (
        match spec_find_tag(b, a[j].0, 0) {
            Some(m) => spec_merge_entry(a[j], b[m]),
            None => a[j],
        }) by {
            lemma_find_tag_props(b, a[j].0, 0);
        }
    } else {
        let b0 = b[0];
        let rest = b.drop_first();
        assert(tags_distinct(rest)) by {
            assert forall|i: int, j: int| 0 <= i < j < rest.len() implies (
            #[trigger] rest[i]).0 != (#[trigger] rest[j]).0 by {
                assert(rest[i] == b[i + 1]);
                assert(rest[j] == b[j + 1]);
            }
        }
        assert forall|i: int| 0 <= i < rest.len() implies (#[trigger] rest[i]).0 != b0.0 by {
            assert(rest[i] == b[i + 1]);
        }
        lemma_find_tag_props(a, b0.0, 0);
        match spec_find_tag(a, b0.0, 0) {
            Some(m) => {
                let a1 = a.update(m, spec_merge_entry(a[m], b0));
                assert(spec_merge_step(a, b0) == a1);
                assert(c == spec_merge(a1, rest));
                assert(a1.len() == a.len());
                assert forall|j: int| 0 <= j < a.len() implies (#[trigger] a1[j]).0
                    == a[j].0 by {
                }
                assert(tags_distinct(a1)) by {
                    assert forall|i: int, j: int| 0 <= i < j < a1.len() implies (
                    #[trigger] a1[i]).0 != (#[trigger] a1[j]).0 by {
                        assert(a1[i].0 == a[i].0);
                        assert(a1[j].0 == a[j].0);
                    }
                }
                lemma_merge_char(a1, rest);
                lemma_new_entries_same_tags(a, a1, rest);
                assert(spec_new_entries(a, b) =~= spec_new_entries(a, rest));
                assert(c.skip(a.len() as int) == spec_new_entries(a, b));
                assert forall|j: int| 0 <= j < a.len() implies (#[trigger] c[j]) == (
                match spec_find_tag(b, a[j].0, 0) {
                    Some(k) => spec_merge_entry(a[j], b[k]),
                    None => a[j],
                }) by {
                    if j == m {
                        lemma_find_tag_props(rest, a[m].0, 0);
                        match spec_find_tag(rest, a1[m].0, 0) {
                            Some(k) => {
                                assert(rest[k].0 != b0.0);
                                assert(false);
                            },
                            None => {
                            },
                        }
                        assert(c[m] == a1[m]);
                        lemma_find_tag_props(b, a[m].0, 0);
                        match spec_find_tag(b, a[m].0, 0) {
                            Some(k) => {
                                if k > 0 {
                                    assert(b[0].0 != a[m].0);
                                    assert(false);
                                }
                            },
                            None => {
                                assert(b[0].0 != a[m].0);
                                assert(false);
                            },
                        }
                    } else {
                        assert(a[j].0 != a[m].0);
                        assert(a1[j] == a[j]);
                        lemma_find_tag_shift(b, a[j].0);
                        lemma_find_tag_props(rest, a[j].0, 0);
                        match spec_find_tag(rest, a[j].0, 0) {
                            Some(k) => {
                                assert(rest[k] == b[k + 1]);
                            },
                            None => {
                            },
                        }
                    }
                }
            },
            None => {
                let a1 = a.push(b0);
                assert(spec_merge_step(a, b0) == a1);
                assert(c == spec_merge(a1, rest));
                assert(tags_distinct(a1)) by {
                    assert forall|i: int, j: int| 0 <= i < j < a1.len() implies (
                    #[trigger] a1[i]).0 != (#[trigger] a1[j]).0 by {
                        if j < a.len() {
                            assert(a1[i] == a[i]);
                            assert(a1[j] == a[j]);
                        } else {
                            assert(a1[i] == a[i]);
                            assert(a1[j] == b0);
                            assert(a[i].0 != b0.0);
                        }
                    }
                }
                lemma_merge_char(a1, rest);
                lemma_new_entries_push(a, b0, rest);
                assert(spec_new_entries(a, b) =~= seq![b0] + spec_new_entries(a, rest));
                // the pushed entry sits right after the old left side
                assert(c[a.len() as int] == (match spec_find_tag(rest, a1[a.len() as int].0, 0) {
                    Some(k) => spec_merge_entry(a1[a.len() as int], rest[k]),
                    None => a1[a.len() as int],
                }));
                lemma_find_tag_props(rest, b0.0, 0);
                match spec_find_tag(rest, b0.0, 0) {
                    Some(k) => {
                        assert(rest[k].0 != b0.0);
                        assert(false);
                    },
                    None => {
                    },
                }
                assert(c[a.len() as int] == b0);
                assert(c.skip(a.len() as int) =~= seq![b0] + c.skip(a.len() as int + 1)) by {
                    assert(c.skip(a.len() as int)[0] == c[a.len() as int]);
                    assert(c.skip(a.len() as int).drop_first() =~= c.skip(a.len() as int + 1));
                    assert(c.skip(a.len() as int) =~= seq![c[a.len() as int]] + c.skip(
                        a.len() as int,
                    ).drop_first());
                }
                assert(c.skip(a.len() as int) == spec_new_entries(a, b));
                assert forall|j: int| 0 <= j < a.len() implies (#[trigger] c[j]) == (
                match spec_find_tag(b, a[j].0, 0) {
                    Some(k) => spec_merge_entry(a[j], b[k]),
                    None => a[j],
                }) by {
                    assert(a1[j] == a[j]);
                    assert(a[j].0 != b0.0);
                    lemma_find_tag_shift(b, a[j].0);
                    lemma_find_tag_props(rest, a[j].0, 0);
                    match spec_find_tag(rest, a[j].0, 0) {
                        Some(k) => {
                            assert(rest[k] == b[k + 1]);
                        },
                        None => {
                        },
                    }
                }
            },
        }
    }
}

/// The union holds everything of either side, keeps the left side in place,
/// and is no shorter than it.
proof fn lemma_hist_union_props(x: Seq<Seq<u8>>, y: Seq<Seq<u8>>)
    ensures
        spec_hist_union(x, y).len() >= x.len(),
        forall|i: int| 0 <= i < x.len() ==> spec_hist_union(x, y)[i] == x[i],
        forall|h: Seq<u8>| #[trigger] spec_hist_union(x, y).contains(h) <==> (x.contains(h)
            || y.contains(h)),
    decreases y.len(),
{
    if y.len() == 0 {
        assert forall|h: Seq<u8>| #[trigger] spec_hist_union(x, y).contains(h) implies (
        x.contains(h) || y.contains(h)) by {
        }
    } else {
        let x1 = if x.contains(y[0]) {
            x
        } else {
            x.push(y[0])
        };
        lemma_hist_union_props(x1, y.drop_first());
        assert forall|i: int| 0 <= i < x.len() implies spec_hist_union(x, y)[i] == x[i] by {
            assert(x1[i] == x[i]);
        }
        assert forall|h: Seq<u8>| #[trigger] spec_hist_union(x, y).contains(h) implies (
        x.contains(h) || y.contains(h)) by {
            if x1.contains(h) {
                if !x.contains(h) {
                    let j = choose|j: int| 0 <= j < x1.len() && x1[j] == h;
                    if j < x.len() {
                        assert(x[j] == h);
                    } else {
                        assert(x1[j] == y[0]);
                        assert(y.contains(y[0]));
                    }
                }
            } else {
                assert(y.drop_first().contains(h));
                let j = choose|j: int| 0 <= j < y.drop_first().len() && y.drop_first()[j] == h;
                assert(y[j + 1] == h);
            }
        }
        assert forall|h: Seq<u8>| (x.contains(h) || y.contains(h)) implies (
        #[trigger] spec_hist_union(x, y).contains(h)) by {
            if x.contains(h) {
                let j = choose|j: int| 0 <= j < x.len() && x[j] == h;
                assert(x1[j] == h);
                assert(x1.contains(h));
            } else {
                let j = choose|j: int| 0 <= j < y.len() && y[j] == h;
                if j == 0 {
                    if x.contains(y[0]) {
                        assert(x1.contains(h));
                    } else {
                        assert(x1[x.len() as int] == y[0]);
                        assert(x1.contains(h));
                    }
                } else {
                    assert(y.drop_first()[j - 1] == h);
                    assert(y.drop_first().contains(h));
                }
            }
        }
    }
}

/// A union folds over a concatenation front part first.
proof fn lemma_hist_union_append(x: Seq<Seq<u8>>, y1: Seq<Seq<u8>>, y2: Seq<Seq<u8>>)
    ensures
        spec_hist_union(x, y1 + y2) == spec_hist_union(spec_hist_union(x, y1), y2),
    decreases y1.len(),
{
    if y1.len() == 0 {
        assert(y1 + y2 =~= y2);
    } else {
        assert((y1 + y2)[0] == y1[0]);
        assert((y1 + y2).drop_first() =~= y1.drop_first() + y2);
        let x1 = if x.contains(y1[0]) {
            x
        } else {
            x.push(y1[0])
        };
        lemma_hist_union_append(x1, y1.drop_first(), y2);
    }
}

/// Uniting with contained elements changes nothing.
proof fn lemma_hist_union_contained(x: Seq<Seq<u8>>, y: Seq<Seq<u8>>)
    requires
        forall|i: int| 0 <= i < y.len() ==> x.contains(#[trigger] y[i]),
    ensures
        spec_hist_union(x, y) == x,
    decreases y.len(),
{
    if y.len() > 0 {
        assert(x.contains(y[0]));
        assert forall|i: int| 0 <= i < y.drop_first().len() implies x.contains(
            #[trigger] y.drop_first()[i],
        ) by {
            assert(y.drop_first()[i] == y[i + 1]);
        }
        lemma_hist_union_contained(x, y.drop_first());
    }
}

/// Uniting with fresh, pairwise distinct elements appends them.
proof fn lemma_hist_union_fresh(x: Seq<Seq<u8>>, w: Seq<Seq<u8>>)
    requires
        forall|i: int| 0 <= i < w.len() ==> !x.contains(#[trigger] w[i]),
        forall|i: int, j: int| 0 <= i < j < w.len() ==> w[i] != w[j],
    ensures
        spec_hist_union(x, w) == x + w,
    decreases w.len(),
{
    if w.len() == 0 {
        assert(x + w =~= x);
    } else {
        let x1 = x.push(w[0]);
        assert(!x.contains(w[0]));
        assert forall|i: int| 0 <= i < w.drop_first().len() implies !x1.contains(
            #[trigger] w.drop_first()[i],
        ) by {
            assert(w.drop_first()[i] == w[i + 1]);
            if x1.contains(w[i + 1]) {
                let j = choose|j: int| 0 <= j < x1.len() && x1[j] == w[i + 1];
                if j < x.len() {
                    assert(x[j] == w[i + 1]);
                } else {
                    assert(x1[j] == w[0]);
                }
            }
        }
        assert forall|i: int, j: int| 0 <= i < j < w.drop_first().len() implies w.drop_first()[i]
            != w.drop_first()[j] by {
            assert(w.drop_first()[i] == w[i + 1]);
            assert(w.drop_first()[j] == w[j + 1]);
        }
        lemma_hist_union_fresh(x1, w.drop_first());
        assert(spec_hist_union(x, w) =~= x + w);
    }
}

/// The shape of a union: the left side, then fresh, pairwise distinct
/// elements.
proof fn lemma_hist_union_shape(x: Seq<Seq<u8>>, y: Seq<Seq<u8>>)
    ensures
        spec_hist_union(x, y).take(x.len() as int) == x,
        forall|i: int| x.len() <= i < spec_hist_union(x, y).len() ==> !x.contains(
            #[trigger] spec_hist_union(x, y)[i],
        ),
        forall|i: int, j: int|
            x.len() <= i < j < spec_hist_union(x, y).len() ==> spec_hist_union(x, y)[i]
                != spec_hist_union(x, y)[j],
    decreases y.len(),
{
    let u = spec_hist_union(x, y);
    lemma_hist_union_props(x, y);
    assert(u.take(x.len() as int) =~= x);
    if y.len() > 0 {
        let x1 = if x.contains(y[0]) {
            x
        } else {
            x.push(y[0])
        };
        lemma_hist_union_shape(x1, y.drop_first());
        if x.contains(y[0]) {
        } else {
            assert forall|i: int| x.len() <= i < u.len() implies !x.contains(
                #[trigger] u[i],
            ) by {
                if i == x.len() {
                    assert(u[i] == x1[i]) by {
                        lemma_hist_union_props(x1, y.drop_first());
                    }
                    assert(x1[x.len() as int] == y[0]);
                } else {
                    assert(!x1.contains(u[i]));
                    if x.contains(u[i]) {
                        let j = choose|j: int| 0 <= j < x.len() && x[j] == u[i];
                        assert(x1[j] == u[i]);
                    }
                }
            }
            assert forall|i: int, j: int| x.len() <= i < j < u.len() implies u[i] != u[j] by {
                if i == x.len() {
                    lemma_hist_union_props(x1, y.drop_first());
                    assert(u[i] == x1[i]);
                    assert(x1[i] == y[0]);
                    assert(!x1.contains(u[j]));
                    if u[j] == y[0] {
                        assert(x1[x.len() as int] == y[0]);
                        assert(x1.contains(u[j]));
                    }
                }
            }
        }
    }
}

/// Uniting with an already united history adds nothing further.
proof fn lemma_hist_union_absorb(x: Seq<Seq<u8>>, y: Seq<Seq<u8>>)
    ensures
        spec_hist_union(x, spec_hist_union(x, y)) == spec_hist_union(x, y),
{
    let u = spec_hist_union(x, y);
    lemma_hist_union_shape(x, y);
    let w = u.skip(x.len() as int);
    assert(u.len() >= x.len()) by {
        lemma_hist_union_props(x, y);
    }
    assert(u =~= u.take(x.len() as int) + w);
    assert(u.take(x.len() as int) == x);
    assert(u =~= x + w);
    lemma_hist_union_append(x, x, w);
    assert forall|i: int| 0 <= i < x.len() implies x.contains(#[trigger] x[i]) by {
    }
    lemma_hist_union_contained(x, x);
    assert forall|i: int| 0 <= i < w.len() implies !x.contains(#[trigger] w[i]) by {
        assert(w[i] == u[x.len() + i]);
    }
    assert forall|i: int, j: int| 0 <= i < j < w.len() implies w[i] != w[j] by {
        assert(w[i] == u[x.len() + i]);
        assert(w[j] == u[x.len() + j]);
    }
    lemma_hist_union_fresh(x, w);
}

/// Merging an entry a second time with the already merged entry changes
/// nothing.
proof fn lemma_entry_convergence(
    mine: (Seq<u8>, Seq<u8>, Seq<Seq<u8>>),
    theirs: (Seq<u8>, Seq<u8>, Seq<Seq<u8>>),
)
    ensures
        spec_merge_entry(mine, spec_merge_entry(mine, theirs)) == spec_merge_entry(mine, theirs),
{
    let m = spec_merge_entry(mine, theirs);
    let mm = spec_merge_entry(mine, m);
    lemma_hist_union_props(mine.2, theirs.2);
    lemma_hist_union_absorb(mine.2, theirs.2);
    assert(mm.2 == m.2);
    if m.1 == mine.1 {
        assert(mm.1 == m.1);
    } else {
        assert(m.1 == theirs.1);
        if mm.1 != m.1 {
            // the second merge kept mine: derive a contradiction from how the
            // first merge let the incoming node through
            assert(mine.1 != m.1 && mine.2.contains(m.1) && (!m.2.contains(mine.1) || mine.2.len()
                > m.2.len()));
            assert(!(mine.1 != theirs.1 && mine.2.contains(theirs.1) && (!theirs.2.contains(
                mine.1,
            ) || mine.2.len() > theirs.2.len())));
            assert(theirs.2.contains(mine.1) && mine.2.len() <= theirs.2.len());
            assert(m.2.contains(mine.1));
            assert(m.2.len() >= mine.2.len());
            assert(false);
        }
    }
    assert(mm =~= m);
}

/// A tag of a distinct run is found at its own index.
proof fn lemma_find_tag_self(a: Seq<(Seq<u8>, Seq<u8>, Seq<Seq<u8>>)>, j: int)
    requires
        tags_distinct(a),
        0 <= j < a.len(),
    ensures
        spec_find_tag(a, a[j].0, 0) == Some(j),
{
    lemma_find_tag_props(a, a[j].0, 0);
    match spec_find_tag(a, a[j].0, 0) {
        Some(k) => {
            if k != j {
                assert(a[k].0 == a[j].0);
            }
        },
        None => {
            assert(a[j].0 != a[j].0);
        },
    }
}

/// Merging a second time with the same left-hand set changes nothing: the
/// merge converges. The incoming side's histories are assumed to subsume the
/// left-hand side's, as they do when the incoming set was itself produced by
/// merging the left-hand set into anything.
pub proof fn lemma_merge_idempotent(
    a: Seq<(Seq<u8>, Seq<u8>, Seq<Seq<u8>>)>,
    b: Seq<(Seq<u8>, Seq<u8>, Seq<Seq<u8>>)>,
)
    requires
        tags_distinct(a),
        tags_distinct(b),
        forall|i: int, j: int|
            0 <= i < a.len() && 0 <= j < b.len() && (#[trigger] a[i]).0 == (#[trigger] b[j]).0
                ==> (forall|h: int| 0 <= h < a[i].2.len() ==> b[j].2.contains(
                #[trigger] a[i].2[h],
            )),
    ensures
        spec_merge(a, spec_merge(a, b)) == spec_merge(a, b),
{
    let c = spec_merge(a, b);
    lemma_merge_char(a, b);
    lemma_merge_char(a, c);
    let d = spec_merge(a, c);
    // the tags c adds beyond a are exactly what folding c back onto a adds
    assert(spec_new_entries(a, c) == c.skip(a.len() as int)) by {
        assert(c =~= c.take(a.len() as int) + c.skip(a.len() as int));
        lemma_new_entries_append(a, c.take(a.len() as int), c.skip(a.len() as int));
        assert forall|i: int| 0 <= i < c.take(a.len() as int).len() implies spec_find_tag(
            a,
            (#[trigger] c.take(a.len() as int)[i]).0,
            0,
        ) is Some by {
            assert(c.take(a.len() as int)[i] == c[i]);
            lemma_find_tag_props(b, a[i].0, 0);
            assert(c[i].0 == a[i].0);
            lemma_find_tag_self(a, i);
        }
        lemma_new_entries_none(a, c.take(a.len() as int));
        assert forall|i: int| 0 <= i < c.skip(a.len() as int).len() implies spec_find_tag(
            a,
            (#[trigger] c.skip(a.len() as int)[i]).0,
            0,
        ) is None by {
            assert(c.skip(a.len() as int)[i] == spec_new_entries(a, b)[i]);
            lemma_new_entries_tags(a, b, i);
        }
        lemma_new_entries_all(a, c.skip(a.len() as int));
        assert(spec_new_entries(a, c) =~= c.skip(a.len() as int));
    }
    assert(d.len() == c.len());
    assert(d.skip(a.len() as int) == c.skip(a.len() as int));
    assert forall|j: int| 0 <= j < a.len() implies #[trigger] d[j] == c[j] by {
        lemma_find_tag_self(a, j);
        assert(c[j].0 == a[j].0) by {
            lemma_find_tag_props(b, a[j].0, 0);
        }
        assert(spec_find_tag(c, a[j].0, 0) == Some(j)) by {
            lemma_find_tag_self(c, j);
        }
        assert(d[j] == spec_merge_entry(a[j], c[j]));
        match spec_find_tag(b, a[j].0, 0) {
            Some(m) => {
                lemma_find_tag_props(b, a[j].0, 0);
                assert(c[j] == spec_merge_entry(a[j], b[m]));
                lemma_entry_convergence(a[j], b[m]);
            },
            None => {
                assert(c[j] == a[j]);
                lemma_hist_union_contained(a[j].2, a[j].2);
                assert(spec_merge_entry(a[j], a[j]).1 == a[j].1);
                assert(spec_merge_entry(a[j], a[j]) =~= a[j]);
            },
        }
    }
    assert forall|j: int| a.len() <= j < d.len() implies #[trigger] d[j] == c[j] by {
        assert(d[j] == d.skip(a.len() as int)[j - a.len()]);
        assert(c[j] == c.skip(a.len() as int)[j - a.len()]);
    }
    assert(d =~= c);
}

/// Every new entry's tag is absent from the left side.
proof fn lemma_new_entries_tags(
    a: Seq<(Seq<u8>, Seq<u8>, Seq<Seq<u8>>)>,
    b: Seq<(Seq<u8>, Seq<u8>, Seq<Seq<u8>>)>,
    i: int,
)
    requires
        0 <= i < spec_new_entries(a, b).len(),
    ensures
        spec_find_tag(a, spec_new_entries(a, b)[i].0, 0) is None,
    decreases b.len(),
{
    if b.len() > 0 {
        if spec_find_tag(a, b[0].0, 0) is None {
            if i == 0 {
                assert(spec_new_entries(a, b)[0] == b[0]);
            } else {
                assert(spec_new_entries(a, b)[i] == spec_new_entries(a, b.drop_first())[i - 1]);
                lemma_new_entries_tags(a, b.drop_first(), i - 1);
            }
        } else {
            assert(spec_new_entries(a, b)[i] == spec_new_entries(a, b.drop_first())[i]);
            lemma_new_entries_tags(a, b.drop_first(), i);
        }
    }
}

} // verus!
