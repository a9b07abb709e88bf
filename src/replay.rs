//! The index as replay builds it, and the facts that tie it to the log.
//!
//! A log is a sequence of segments, each a sequence of bytes; replay reads
//! the records of each segment in order and stops at the first byte that does
//! not start a well-formed record.

use vstd::prelude::*;
use crate::codec::{Cmd, decode, encode, encodable, lemma_decode_encode, lemma_decode_prefix};

verus! {

/// Where a record lives: its segment's position in the log, its offset in
/// that segment, and its length in bytes.
#[derive(Clone, Copy, Debug)]
pub struct LogPointer {
    pub segment: usize,
    pub offset: usize,
    pub length: usize,
}

/// The index and byte counts after replaying part of a log. `consumed` counts
/// the bytes of all records read.
pub struct Replayed {
    pub index: Seq<(Seq<u8>, LogPointer)>,
    pub uncompacted: nat,
    pub consumed: nat,
}

pub open spec fn initial() -> Replayed {
    Replayed { index: seq![], uncompacted: 0, consumed: 0 }
}

/// The position of `k` in the index, or -1.
pub open spec fn find_key(idx: Seq<(Seq<u8>, LogPointer)>, k: Seq<u8>) -> int
    decreases idx.len(),
{
    if idx.len() == 0 {
        -1
    } else if idx.last().0 == k {
        idx.len() - 1
    } else {
        find_key(idx.drop_last(), k)
    }
}

/// The effect of one record on the index: a `Put` points its key at the
/// record, and whatever it replaces becomes reclaimable; a `Remove` drops
/// its key, and both the dropped record and the tombstone are reclaimable.
pub open spec fn step(st: Replayed, c: Cmd, p: LogPointer) -> Replayed {
    let k = c.key();
    let i = find_key(st.index, k);
    let consumed = (st.consumed + p.length) as nat;
    match c {
        Cmd::Put { .. } => if i >= 0 {
            Replayed {
                index: st.index.update(i, (k, p)),
                uncompacted: (st.uncompacted + st.index[i].1.length) as nat,
                consumed,
            }
        } else {
            Replayed { index: st.index.push((k, p)), uncompacted: st.uncompacted, consumed }
        },
        Cmd::Remove { .. } => if i >= 0 {
            Replayed {
                index: st.index.remove(i),
                uncompacted: (st.uncompacted + st.index[i].1.length + p.length) as nat,
                consumed,
            }
        } else {
            Replayed { index: st.index, uncompacted: (st.uncompacted + p.length) as nat, consumed }
        },
    }
}

/// Replays the records of segment `id`, whose bytes are `seg`, from `off`.
pub open spec fn replay_segment(st: Replayed, seg: Seq<u8>, id: nat, off: nat) -> Replayed
    decreases seg.len() - off,
{
    if off >= seg.len() {
        st
    } else {
        match decode(seg.subrange(off as int, seg.len() as int)) {
            Some((c, n)) => if 0 < n && off + n <= seg.len() {
                replay_segment(
                    step(st, c, LogPointer { segment: id as usize, offset: off as usize, length: n as usize }),
                    seg,
                    id,
                    off + n,
                )
            } else {
                st
            },
            None => st,
        }
    }
}

/// The offset at which replay of `seg` from `off` stops.
pub open spec fn parsed_end(seg: Seq<u8>, off: nat) -> nat
    decreases seg.len() - off,
{
    if off >= seg.len() {
        off
    } else {
        match decode(seg.subrange(off as int, seg.len() as int)) {
            Some((c, n)) => if 0 < n && off + n <= seg.len() {
                parsed_end(seg, off + n)
            } else {
                off
            },
            None => off,
        }
    }
}

/// Replay of a whole log, segment after segment.
pub open spec fn replay_all(segs: Seq<Seq<u8>>) -> Replayed
    decreases segs.len(),
{
    if segs.len() == 0 {
        initial()
    } else {
        replay_segment(replay_all(segs.drop_last()), segs.last(), (segs.len() - 1) as nat, 0)
    }
}

/// Total size of a log in bytes.
pub open spec fn total_len(segs: Seq<Seq<u8>>) -> nat
    decreases segs.len(),
{
    if segs.len() == 0 {
        0
    } else {
        total_len(segs.drop_last()) + segs.last().len()
    }
}

/// The record at `p`, where there is one.
pub open spec fn record_at(segs: Seq<Seq<u8>>, p: LogPointer) -> Option<(Cmd, nat)> {
    if p.segment < segs.len() && p.offset <= segs[p.segment as int].len() {
        decode(segs[p.segment as int].subrange(p.offset as int, segs[p.segment as int].len() as int))
    } else {
        None
    }
}

/// `p` locates a whole `Put` record of key `k`.
pub open spec fn points_to(segs: Seq<Seq<u8>>, p: LogPointer, k: Seq<u8>) -> bool {
    &&& p.segment < segs.len()
    &&& p.offset + p.length <= segs[p.segment as int].len()
    &&& record_at(segs, p) matches Some((Cmd::Put { key, .. }, n))
    &&& key == k
    &&& n == p.length
}

/// The value held by the record at `p`.
pub open spec fn value_at(segs: Seq<Seq<u8>>, p: LogPointer) -> Seq<u8> {
    match record_at(segs, p) {
        Some((Cmd::Put { value, .. }, _)) => value,
        _ => seq![],
    }
}

pub open spec fn unique_keys(idx: Seq<(Seq<u8>, LogPointer)>) -> bool {
    forall|i: int, j: int| 0 <= i < j < idx.len() ==> idx[i].0 != idx[j].0
}

/// Every entry locates the `Put` record of its key, and keys are unique.
pub open spec fn index_ok(idx: Seq<(Seq<u8>, LogPointer)>, segs: Seq<Seq<u8>>) -> bool {
    &&& unique_keys(idx)
    &&& forall|i: int| 0 <= i < idx.len() ==> points_to(segs, #[trigger] idx[i].1, idx[i].0)
}

/// Bytes of the records the index points at.
pub open spec fn live_bytes(idx: Seq<(Seq<u8>, LogPointer)>) -> nat
    decreases idx.len(),
{
    if idx.len() == 0 {
        0
    } else {
        (live_bytes(idx.drop_last()) + idx.last().1.length) as nat
    }
}

/// Every byte read is either live or reclaimable.
pub open spec fn accounted(st: Replayed) -> bool {
    st.uncompacted + live_bytes(st.index) == st.consumed
}

/// The live pairs after applying one command.
pub open spec fn applied(m: Map<Seq<u8>, Seq<u8>>, c: Cmd) -> Map<Seq<u8>, Seq<u8>> {
    match c {
        Cmd::Put { key, value } => m.insert(key, value),
        Cmd::Remove { key } => m.remove(key),
    }
}

/// The live pairs that an index gives over a log.
pub open spec fn live(idx: Seq<(Seq<u8>, LogPointer)>, segs: Seq<Seq<u8>>) -> Map<Seq<u8>, Seq<u8>> {
    Map::new(|k: Seq<u8>| find_key(idx, k) >= 0, |k: Seq<u8>| value_at(segs, idx[find_key(idx, k)].1))
}

pub proof fn lemma_find_key(idx: Seq<(Seq<u8>, LogPointer)>, k: Seq<u8>)
    ensures
        -1 <= find_key(idx, k) < idx.len(),
        find_key(idx, k) >= 0 ==> idx[find_key(idx, k)].0 == k,
        find_key(idx, k) == -1 <==> forall|i: int| 0 <= i < idx.len() ==> idx[i].0 != k,
        unique_keys(idx) ==> forall|i: int| 0 <= i < idx.len() && idx[i].0 == k ==> find_key(idx, k) == i,
    decreases idx.len(),
{
    if idx.len() > 0 {
        lemma_find_key(idx.drop_last(), k);
        assert forall|i: int| 0 <= i < idx.len() - 1 implies idx.drop_last()[i] == idx[i] by {}
    }
}

pub proof fn lemma_live_bytes_push(idx: Seq<(Seq<u8>, LogPointer)>, e: (Seq<u8>, LogPointer))
    ensures
        live_bytes(idx.push(e)) == live_bytes(idx) + e.1.length,
{
    assert(idx.push(e).drop_last() =~= idx);
}

pub proof fn lemma_live_bytes_update(idx: Seq<(Seq<u8>, LogPointer)>, i: int, e: (Seq<u8>, LogPointer))
    requires
        0 <= i < idx.len(),
    ensures
        live_bytes(idx.update(i, e)) + idx[i].1.length == live_bytes(idx) + e.1.length,
    decreases idx.len(),
{
    if i < idx.len() - 1 {
        assert(idx.update(i, e).drop_last() =~= idx.drop_last().update(i, e));
        lemma_live_bytes_update(idx.drop_last(), i, e);
    } else {
        assert(idx.update(i, e).drop_last() =~= idx.drop_last());
    }
}

pub proof fn lemma_live_bytes_remove(idx: Seq<(Seq<u8>, LogPointer)>, i: int)
    requires
        0 <= i < idx.len(),
    ensures
        live_bytes(idx.remove(i)) + idx[i].1.length == live_bytes(idx),
    decreases idx.len(),
{
    if i < idx.len() - 1 {
        assert(idx.remove(i).drop_last() =~= idx.drop_last().remove(i));
        lemma_live_bytes_remove(idx.drop_last(), i);
    } else {
        assert(idx.remove(i) =~= idx.drop_last());
    }
}

/// One step keeps the byte accounting and, for a record that the log holds,
/// the index's agreement with the log.
pub proof fn lemma_step_accounted(st: Replayed, c: Cmd, p: LogPointer)
    requires
        accounted(st),
    ensures
        accounted(step(st, c, p)),
        step(st, c, p).consumed == st.consumed + p.length,
{
    let k = c.key();
    let i = find_key(st.index, k);
    lemma_find_key(st.index, k);
    if i >= 0 {
        lemma_live_bytes_update(st.index, i, (k, p));
        lemma_live_bytes_remove(st.index, i);
    } else {
        lemma_live_bytes_push(st.index, (k, p));
    }
}

pub proof fn lemma_step(st: Replayed, c: Cmd, p: LogPointer, segs: Seq<Seq<u8>>)
    requires
        accounted(st),
        index_ok(st.index, segs),
        c is Put ==> points_to(segs, p, c.key()),
    ensures
        accounted(step(st, c, p)),
        index_ok(step(st, c, p).index, segs),
        step(st, c, p).consumed == st.consumed + p.length,
{
    lemma_step_accounted(st, c, p);
    let k = c.key();
    let i = find_key(st.index, k);
    lemma_find_key(st.index, k);
    let idx = st.index;
    if c is Put {
        if i >= 0 {
            lemma_live_bytes_update(idx, i, (k, p));
            let n = idx.update(i, (k, p));
            assert forall|a: int| 0 <= a < n.len() implies points_to(segs, #[trigger] n[a].1, n[a].0) by {
                if a != i {
                    assert(points_to(segs, idx[a].1, idx[a].0));
                }
            }
        } else {
            lemma_live_bytes_push(idx, (k, p));
            let n = idx.push((k, p));
            assert forall|a: int| 0 <= a < n.len() implies points_to(segs, #[trigger] n[a].1, n[a].0) by {
                if a < idx.len() {
                    assert(points_to(segs, idx[a].1, idx[a].0));
                }
            }
        }
    } else {
        if i >= 0 {
            lemma_live_bytes_remove(idx, i);
            let n = idx.remove(i);
            assert forall|a: int| 0 <= a < n.len() implies points_to(segs, #[trigger] n[a].1, n[a].0) by {
                if a < i {
                    assert(n[a] == idx[a]);
                    assert(points_to(segs, idx[a].1, idx[a].0));
                } else {
                    assert(n[a] == idx[a + 1]);
                    assert(points_to(segs, idx[a + 1].1, idx[a + 1].0));
                }
            }
            assert forall|a: int, b: int| 0 <= a < b < n.len() implies n[a].0 != n[b].0 by {
                let a2 = if a < i { a } else { a + 1 };
                let b2 = if b < i { b } else { b + 1 };
                assert(n[a] == idx[a2] && n[b] == idx[b2]);
            }
        }
    }
}

/// Sizes that an in-memory log can have.
pub open spec fn fits(segs: Seq<Seq<u8>>) -> bool {
    &&& segs.len() <= usize::MAX
    &&& total_len(segs) <= usize::MAX
}

pub proof fn lemma_total_bound(segs: Seq<Seq<u8>>, i: int)
    requires
        0 <= i < segs.len(),
    ensures
        segs[i].len() <= total_len(segs),
    decreases segs.len(),
{
    if i < segs.len() - 1 {
        lemma_total_bound(segs.drop_last(), i);
    }
}

pub proof fn lemma_total_prefix(segs: Seq<Seq<u8>>, i: int)
    requires
        0 <= i < segs.len(),
    ensures
        total_len(segs.take(i + 1)) == total_len(segs.take(i)) + segs[i].len(),
        total_len(segs.take(i + 1)) <= total_len(segs),
    decreases segs.len(),
{
    assert(segs.take(i + 1).drop_last() =~= segs.take(i));
    if i == segs.len() - 1 {
        assert(segs.take(i + 1) =~= segs);
    } else {
        lemma_total_prefix(segs.drop_last(), i);
        assert(segs.drop_last().take(i + 1) =~= segs.take(i + 1));
        assert(segs.drop_last().take(i) =~= segs.take(i));
    }
}

/// A segment that replay reads to its last byte.
pub open spec fn clean(seg: Seq<u8>) -> bool {
    parsed_end(seg, 0) == seg.len()
}

/// Locations stay valid, and keep their records, when a log grows.
pub proof fn lemma_points_to_grow(segs: Seq<Seq<u8>>, segs2: Seq<Seq<u8>>, p: LogPointer, k: Seq<u8>)
    requires
        points_to(segs, p, k),
        segs.len() <= segs2.len(),
        forall|i: int| 0 <= i < segs.len() ==> segs2[i].len() >= segs[i].len()
            && (#[trigger] segs2[i]).subrange(0, segs[i].len() as int) == segs[i],
    ensures
        points_to(segs2, p, k),
        record_at(segs2, p) == record_at(segs, p),
        value_at(segs2, p) == value_at(segs, p),
{
    let j = p.segment as int;
    let a = segs[j];
    let b = segs2[j];
    let x = b.subrange(a.len() as int, b.len() as int);
    assert(b =~= a + x) by {
        assert(b.subrange(0, a.len() as int) == a);
    }
    assert(b.subrange(p.offset as int, b.len() as int) =~= a.subrange(p.offset as int, a.len() as int) + x);
    lemma_decode_prefix(a.subrange(p.offset as int, a.len() as int), x);
}

pub proof fn lemma_index_ok_grow(idx: Seq<(Seq<u8>, LogPointer)>, segs: Seq<Seq<u8>>, segs2: Seq<Seq<u8>>)
    requires
        index_ok(idx, segs),
        segs.len() <= segs2.len(),
        forall|i: int| 0 <= i < segs.len() ==> segs2[i].len() >= segs[i].len()
            && (#[trigger] segs2[i]).subrange(0, segs[i].len() as int) == segs[i],
    ensures
        index_ok(idx, segs2),
        live(idx, segs2) == live(idx, segs),
{
    assert forall|i: int| 0 <= i < idx.len() implies points_to(segs2, #[trigger] idx[i].1, idx[i].0) by {
        lemma_points_to_grow(segs, segs2, idx[i].1, idx[i].0);
    }
    assert forall|k: Seq<u8>| #[trigger] live(idx, segs2).contains_key(k) implies live(idx, segs2)[k]
        == live(idx, segs)[k] by {
        lemma_find_key(idx, k);
        let i = find_key(idx, k);
        lemma_points_to_grow(segs, segs2, idx[i].1, idx[i].0);
    }
    assert(live(idx, segs2) =~= live(idx, segs));
}

proof fn lemma_replay_segment_ok(st: Replayed, segs: Seq<Seq<u8>>, id: nat, off: nat)
    requires
        fits(segs),
        id < segs.len(),
        off <= segs[id as int].len(),
        accounted(st),
        index_ok(st.index, segs),
    ensures
        accounted(replay_segment(st, segs[id as int], id, off)),
        index_ok(replay_segment(st, segs[id as int], id, off).index, segs),
        replay_segment(st, segs[id as int], id, off).consumed <= st.consumed + segs[id as int].len() - off,
    decreases segs[id as int].len() - off,
{
    let seg = segs[id as int];
    lemma_total_bound(segs, id as int);
    if off < seg.len() {
        if let Some((c, n)) = decode(seg.subrange(off as int, seg.len() as int)) {
            if 0 < n && off + n <= seg.len() {
                let p = LogPointer { segment: id as usize, offset: off as usize, length: n as usize };
                assert(record_at(segs, p) == decode(seg.subrange(off as int, seg.len() as int)));
                lemma_step(st, c, p, segs);
                lemma_replay_segment_ok(step(st, c, p), segs, id, off + n);
            }
        }
    }
}

/// Replay of a log yields an index that agrees with it, with every byte read
/// counted once.
pub proof fn lemma_replay_all_ok(segs: Seq<Seq<u8>>)
    requires
        fits(segs),
    ensures
        accounted(replay_all(segs)),
        index_ok(replay_all(segs).index, segs),
        replay_all(segs).consumed <= total_len(segs),
    decreases segs.len(),
{
    if segs.len() > 0 {
        let prev = segs.drop_last();
        lemma_replay_all_ok(prev);
        assert forall|i: int| 0 <= i < prev.len() implies segs[i].len() >= prev[i].len()
            && (#[trigger] segs[i]).subrange(0, prev[i].len() as int) == prev[i] by {
            assert(segs[i].subrange(0, prev[i].len() as int) =~= prev[i]);
        }
        lemma_index_ok_grow(replay_all(prev).index, prev, segs);
        lemma_replay_segment_ok(replay_all(prev), segs, (segs.len() - 1) as nat, 0);
    }
}

proof fn lemma_append_segment(st: Replayed, seg: Seq<u8>, c: Cmd, id: nat, off: nat)
    requires
        encodable(c),
        off <= seg.len(),
        parsed_end(seg, off) == seg.len(),
    ensures
        replay_segment(st, seg + encode(c), id, off) == step(
            replay_segment(st, seg, id, off),
            c,
            LogPointer { segment: id as usize, offset: seg.len() as usize, length: encode(c).len() as usize },
        ),
        parsed_end(seg + encode(c), off) == seg.len() + encode(c).len(),
    decreases seg.len() - off,
{
    let e = encode(c);
    let s2 = seg + e;
    lemma_decode_encode(c, seq![]);
    if off == seg.len() {
        assert(s2.subrange(off as int, s2.len() as int) =~= e + seq![]);
        let st2 = step(st, c, LogPointer { segment: id as usize, offset: off as usize, length: e.len() as usize });
        assert(replay_segment(st2, s2, id, off + e.len()) == st2);
        assert(parsed_end(s2, off + e.len()) == off + e.len());
    } else {
        let (c1, n) = decode(seg.subrange(off as int, seg.len() as int))->0;
        assert(s2.subrange(off as int, s2.len() as int) =~= seg.subrange(off as int, seg.len() as int) + e);
        lemma_decode_prefix(seg.subrange(off as int, seg.len() as int), e);
        let p = LogPointer { segment: id as usize, offset: off as usize, length: n as usize };
        lemma_append_segment(step(st, c1, p), seg, c, id, off + n);
    }
}

/// Appending a record to the last segment of a log that replay reads to the
/// end is one more step of replay.
pub proof fn lemma_append_last(segs: Seq<Seq<u8>>, c: Cmd)
    requires
        segs.len() > 0,
        clean(segs.last()),
        encodable(c),
    ensures
        replay_all(segs.update(segs.len() - 1, segs.last() + encode(c))) == step(
            replay_all(segs),
            c,
            LogPointer {
                segment: (segs.len() - 1) as nat as usize,
                offset: segs.last().len() as usize,
                length: encode(c).len() as usize,
            },
        ),
        clean(segs.last() + encode(c)),
{
    let s2 = segs.update(segs.len() - 1, segs.last() + encode(c));
    assert(s2.drop_last() =~= segs.drop_last());
    lemma_append_segment(replay_all(segs.drop_last()), segs.last(), c, (segs.len() - 1) as nat, 0);
}

/// An empty segment at the end of a log changes nothing that replay sees.
pub proof fn lemma_push_empty(segs: Seq<Seq<u8>>)
    ensures
        replay_all(segs.push(seq![])) == replay_all(segs),
        clean(seq![]),
        total_len(segs.push(seq![])) == total_len(segs),
{
    assert(segs.push(seq![]).drop_last() =~= segs);
}

/// `segs2` holds every segment of `segs` as a prefix of its own.
pub open spec fn extends(segs2: Seq<Seq<u8>>, segs: Seq<Seq<u8>>) -> bool {
    &&& segs.len() <= segs2.len()
    &&& forall|i: int| 0 <= i < segs.len() ==> segs2[i].len() >= segs[i].len()
        && (#[trigger] segs2[i]).subrange(0, segs[i].len() as int) == segs[i]
}

/// The position of a key depends on the keys of the index alone.
pub proof fn lemma_find_key_same_keys(a: Seq<(Seq<u8>, LogPointer)>, b: Seq<(Seq<u8>, LogPointer)>, k: Seq<u8>)
    requires
        a.len() == b.len(),
        forall|t: int| 0 <= t < a.len() ==> #[trigger] a[t].0 == b[t].0,
    ensures
        find_key(a, k) == find_key(b, k),
    decreases a.len(),
{
    if a.len() > 0 {
        assert(a[a.len() - 1].0 == b[b.len() - 1].0);
        lemma_find_key_same_keys(a.drop_last(), b.drop_last(), k);
    }
}

pub proof fn lemma_live_prefix(idx: Seq<(Seq<u8>, LogPointer)>, j: int)
    requires
        0 <= j < idx.len(),
    ensures
        live_bytes(idx.take(j + 1)) == live_bytes(idx.take(j)) + idx[j].1.length,
        live_bytes(idx.take(j + 1)) <= live_bytes(idx),
    decreases idx.len(),
{
    assert(idx.take(j + 1).drop_last() =~= idx.take(j));
    if j == idx.len() - 1 {
        assert(idx.take(j + 1) =~= idx);
    } else {
        lemma_live_prefix(idx.drop_last(), j);
        assert(idx.drop_last().take(j + 1) =~= idx.take(j + 1));
        assert(idx.drop_last().take(j) =~= idx.take(j));
    }
}

/// What one step of replay does to the live pairs: a `Put` sets its key's
/// value, a `Remove` drops its key.
pub proof fn lemma_step_live(st: Replayed, c: Cmd, p: LogPointer, segs: Seq<Seq<u8>>, segs2: Seq<Seq<u8>>)
    requires
        accounted(st),
        index_ok(st.index, segs),
        extends(segs2, segs),
        c is Put ==> points_to(segs2, p, c.key()),
        c matches Cmd::Put { value, .. } ==> value_at(segs2, p) == value,
    ensures
        index_ok(step(st, c, p).index, segs2),
        live(step(st, c, p).index, segs2) == applied(live(st.index, segs), c),
{
    let idx = st.index;
    let k = c.key();
    lemma_index_ok_grow(idx, segs, segs2);
    lemma_step(st, c, p, segs2);
    let n = step(st, c, p).index;
    let i = find_key(idx, k);
    lemma_find_key(idx, k);
    let m = live(idx, segs2);
    assert forall|k2: Seq<u8>| #[trigger] live(n, segs2).contains_key(k2) == applied(m, c).contains_key(k2)
        && (live(n, segs2).contains_key(k2) ==> live(n, segs2)[k2] == applied(m, c)[k2]) by {
        lemma_find_key(idx, k2);
        lemma_find_key(n, k2);
        let j = find_key(idx, k2);
        if c is Put {
            if k2 == k {
                if i >= 0 {
                    assert(n[i].0 == k);
                } else {
                    assert(n[idx.len() as int].0 == k);
                }
            } else if j >= 0 {
                assert(n[j] == idx[j]);
            } else {
                assert forall|t: int| 0 <= t < n.len() implies n[t].0 != k2 by {
                    if t < idx.len() && t != i {
                        assert(n[t] == idx[t]);
                    }
                }
            }
        } else {
            if k2 == k {
                if i >= 0 {
                    assert forall|t: int| 0 <= t < n.len() implies n[t].0 != k2 by {
                        if t < i {
                            assert(n[t] == idx[t]);
                        } else {
                            assert(n[t] == idx[t + 1]);
                        }
                    }
                }
            } else if j >= 0 {
                if i >= 0 {
                    if j < i {
                        assert(n[j] == idx[j]);
                    } else {
                        assert(n[j - 1] == idx[j]);
                    }
                }
            } else {
                if i >= 0 {
                    assert forall|t: int| 0 <= t < n.len() implies n[t].0 != k2 by {
                        if t < i {
                            assert(n[t] == idx[t]);
                        } else {
                            assert(n[t] == idx[t + 1]);
                        }
                    }
                }
            }
        }
    }
    assert(live(n, segs2) =~= applied(m, c));
}

/// Appending a record to the clean last segment: replay takes one more step,
/// the live pairs change as the command says, and the log grows by the
/// record's bytes.
pub proof fn lemma_append_record(segs: Seq<Seq<u8>>, c: Cmd)
    requires
        segs.len() > 0,
        clean(segs.last()),
        encodable(c),
        fits(segs),
        total_len(segs) + encode(c).len() <= usize::MAX,
    ensures
        ({
            let segs2 = segs.update(segs.len() - 1, segs.last() + encode(c));
            let p = LogPointer {
                segment: (segs.len() - 1) as nat as usize,
                offset: segs.last().len() as usize,
                length: encode(c).len() as usize,
            };
            &&& replay_all(segs2) == step(replay_all(segs), c, p)
            &&& clean(segs2.last())
            &&& fits(segs2)
            &&& total_len(segs2) == total_len(segs) + encode(c).len()
            &&& accounted(replay_all(segs))
            &&& replay_all(segs).consumed + p.length <= usize::MAX
            &&& live(replay_all(segs2).index, segs2) == applied(live(replay_all(segs).index, segs), c)
        }),
{
    let last = segs.len() - 1;
    let segs2 = segs.update(last, segs.last() + encode(c));
    let p = LogPointer {
        segment: (segs.len() - 1) as nat as usize,
        offset: segs.last().len() as usize,
        length: encode(c).len() as usize,
    };
    lemma_decode_encode(c, seq![]);
    lemma_replay_all_ok(segs);
    lemma_append_last(segs, c);
    assert(segs2.drop_last() =~= segs.drop_last());
    assert forall|i: int| 0 <= i < segs.len() implies segs2[i].len() >= segs[i].len()
        && (#[trigger] segs2[i]).subrange(0, segs[i].len() as int) == segs[i] by {
        assert(segs2[i].subrange(0, segs[i].len() as int) =~= segs[i]);
    }
    assert(segs2[last].subrange(segs.last().len() as int, segs2[last].len() as int) =~= encode(c) + seq![]);
    assert(record_at(segs2, p) == Some((c, encode(c).len())));
    lemma_step_live(replay_all(segs), c, p, segs, segs2);
}

/// A new, empty segment at the end of a log.
pub proof fn lemma_push_empty_live(segs: Seq<Seq<u8>>)
    requires
        fits(segs),
        segs.len() < usize::MAX,
    ensures
        replay_all(segs.push(seq![])) == replay_all(segs),
        live(replay_all(segs).index, segs.push(seq![])) == live(replay_all(segs).index, segs),
        fits(segs.push(seq![])),
        total_len(segs.push(seq![])) == total_len(segs),
        clean(segs.push(seq![]).last()),
{
    let s2 = segs.push(seq![]);
    lemma_push_empty(segs);
    lemma_replay_all_ok(segs);
    assert forall|i: int| 0 <= i < segs.len() implies s2[i].len() >= segs[i].len()
        && (#[trigger] s2[i]).subrange(0, segs[i].len() as int) == segs[i] by {
        assert(s2[i].subrange(0, segs[i].len() as int) =~= segs[i]);
    }
    lemma_index_ok_grow(replay_all(segs).index, segs, s2);
}

/// A record appended to a log of one clean segment.
pub proof fn lemma_grow_one(s0: Seq<u8>, c: Cmd)
    requires
        clean(s0),
        encodable(c),
        s0.len() + encode(c).len() <= usize::MAX,
    ensures
        ({
            let g2 = seq![s0 + encode(c)];
            let p = LogPointer { segment: 0, offset: s0.len() as usize, length: encode(c).len() as usize };
            &&& clean(s0 + encode(c))
            &&& extends(g2, seq![s0])
            &&& record_at(g2, p) == Some((c, encode(c).len()))
            &&& replay_all(g2) == step(replay_all(seq![s0]), c, p)
        }),
{
    lemma_grow_one_replay(s0, c);
    lemma_grow_one_record(s0, c);
}

#[verifier::spinoff_prover]
proof fn lemma_grow_one_replay(s0: Seq<u8>, c: Cmd)
    requires
        clean(s0),
        encodable(c),
    ensures
        clean(s0 + encode(c)),
        replay_all(seq![s0 + encode(c)]) == step(
            replay_all(seq![s0]),
            c,
            LogPointer { segment: 0, offset: s0.len() as usize, length: encode(c).len() as usize },
        ),
{
    let g = seq![s0];
    lemma_append_last(g, c);
    assert(g.update(0, s0 + encode(c)) =~= seq![s0 + encode(c)]);
    assert(g.last() == s0);
}

#[verifier::spinoff_prover]
proof fn lemma_grow_one_record(s0: Seq<u8>, c: Cmd)
    requires
        encodable(c),
        s0.len() + encode(c).len() <= usize::MAX,
    ensures
        extends(seq![s0 + encode(c)], seq![s0]),
        record_at(
            seq![s0 + encode(c)],
            LogPointer { segment: 0, offset: s0.len() as usize, length: encode(c).len() as usize },
        ) == Some((c, encode(c).len())),
{
    let s1 = s0 + encode(c);
    let g2 = seq![s1];
    lemma_decode_encode(c, seq![]);
    assert forall|i: int| 0 <= i < seq![s0].len() implies g2[i].len() >= seq![s0][i].len()
        && (#[trigger] g2[i]).subrange(0, seq![s0][i].len() as int) == seq![s0][i] by {
        assert(g2[i].subrange(0, s0.len() as int) =~= s0);
    }
    assert(s1.subrange(s0.len() as int, s1.len() as int) =~= encode(c) + seq![]);
}

/// One pair more written into the segment that compaction builds: the
/// rebuilt index gains the pair's key, with the same value, at the end.
pub proof fn lemma_compact_step(
    st: Replayed,
    g: Seq<Seq<u8>>,
    g2: Seq<Seq<u8>>,
    c: Cmd,
    p: LogPointer,
    idx: Seq<(Seq<u8>, LogPointer)>,
    segs: Seq<Seq<u8>>,
    j: int,
)
    requires
        accounted(st),
        st.index.len() == j,
        index_ok(st.index, g),
        forall|t: int| 0 <= t < j ==> (#[trigger] st.index[t]).0 == idx[t].0,
        forall|t: int| 0 <= t < j ==> value_at(g, #[trigger] st.index[t].1) == value_at(segs, idx[t].1),
        unique_keys(idx),
        0 <= j < idx.len(),
        c == (Cmd::Put { key: idx[j].0, value: value_at(segs, idx[j].1) }),
        extends(g2, g),
        record_at(g2, p) == Some((c, p.length as nat)),
        p.segment < g2.len(),
        p.offset + p.length <= g2[p.segment as int].len(),
    ensures
        ({
            let st2 = step(st, c, p);
            &&& accounted(st2)
            &&& st2.index.len() == j + 1
            &&& st2.uncompacted == st.uncompacted
            &&& index_ok(st2.index, g2)
            &&& forall|t: int| 0 <= t < j + 1 ==> (#[trigger] st2.index[t]).0 == idx[t].0
            &&& forall|t: int|
                0 <= t < j + 1 ==> value_at(g2, #[trigger] st2.index[t].1) == value_at(segs, idx[t].1)
        }),
{
    lemma_find_key(st.index, idx[j].0);
    assert forall|t: int| 0 <= t < st.index.len() implies st.index[t].0 != idx[j].0 by {
        assert(st.index[t].0 == idx[t].0);
    }
    lemma_index_ok_grow(st.index, g, g2);
    lemma_step(st, c, p, g2);
    let st2 = step(st, c, p);
    assert forall|t: int| 0 <= t < j + 1 implies value_at(g2, #[trigger] st2.index[t].1) == value_at(
        segs,
        idx[t].1,
    ) by {
        if t < j {
            assert(st2.index[t] == st.index[t]);
            assert(points_to(g, st.index[t].1, st.index[t].0));
            lemma_points_to_grow(g, g2, st.index[t].1, st.index[t].0);
        }
    }
    assert forall|t: int| 0 <= t < j + 1 implies (#[trigger] st2.index[t]).0 == idx[t].0 by {
        if t < j {
            assert(st2.index[t] == st.index[t]);
        }
    }
}

/// Two indexes with the same keys in the same order, whose entries hold the
/// same values, give the same live pairs.
pub proof fn lemma_same_live(
    a: Seq<(Seq<u8>, LogPointer)>,
    ga: Seq<Seq<u8>>,
    b: Seq<(Seq<u8>, LogPointer)>,
    gb: Seq<Seq<u8>>,
)
    requires
        a.len() == b.len(),
        forall|t: int| 0 <= t < a.len() ==> (#[trigger] a[t]).0 == b[t].0,
        forall|t: int| 0 <= t < a.len() ==> value_at(ga, #[trigger] a[t].1) == value_at(gb, b[t].1),
    ensures
        live(a, ga) == live(b, gb),
{
    assert forall|k: Seq<u8>| #[trigger] live(a, ga).contains_key(k) == live(b, gb).contains_key(k)
        && (live(b, gb).contains_key(k) ==> live(a, ga)[k] == live(b, gb)[k]) by {
        lemma_find_key_same_keys(a, b, k);
        lemma_find_key(b, k);
    }
    assert(live(a, ga) =~= live(b, gb));
}

} // verus!
