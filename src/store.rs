//! The store engine: an index over an append-only log of segments, with
//! byte accounting and compaction.
//!
//! The store holds the bytes of its segments. Each change it makes to them
//! is also queued as a `LogEffect`, so that whoever keeps the segments in
//! files can apply the same changes there.

use vstd::prelude::*;
use vstd::utf8::*;
use crate::codec::{
    Cmd, Command, copy_range, decode, decode_at, encodable, encode, encode_command, lemma_decode_encode,
    lemma_decode_encodable, lemma_decode_len, push_bytes, string_from_utf8,
};
use crate::replay::{
    LogPointer, Replayed, accounted, applied, clean, find_key, fits, index_ok, initial,
    lemma_append_record, lemma_compact_step, lemma_find_key, lemma_grow_one,
    lemma_live_bytes_remove, lemma_live_bytes_update, lemma_live_prefix, lemma_push_empty,
    lemma_push_empty_live, lemma_replay_all_ok, lemma_same_live, lemma_step,
    lemma_step_accounted, lemma_total_prefix, live, live_bytes, points_to, record_at,
    replay_all, replay_segment, step, total_len, value_at,
};

verus! {

broadcast use group_utf8_lib;

/// Reclaimable bytes above which a write compacts the log: 1 MiB.
pub const COMPACTION_THRESHOLD: u64 = 1048576;

/// One entry of the index: a key's UTF-8 bytes and its latest `Put` record.
pub struct IndexEntry {
    pub key: Vec<u8>,
    pub pointer: LogPointer,
}

pub open spec fn entries(v: Seq<IndexEntry>) -> Seq<(Seq<u8>, LogPointer)> {
    v.map_values(|e: IndexEntry| (e.key@, e.pointer))
}

/// A change to the segments, in the order the store made it.
pub enum LogEffect {
    /// Append `bytes` to segment `segment`, creating it when it is the next one.
    Append { segment: usize, bytes: Vec<u8> },
    /// Replace the whole log by a single segment holding `bytes`.
    Replace { bytes: Vec<u8> },
}

pub open spec fn apply_effect(d: Seq<Seq<u8>>, e: LogEffect) -> Seq<Seq<u8>> {
    match e {
        LogEffect::Append { segment, bytes } => if segment == d.len() {
            d.push(bytes@)
        } else if segment < d.len() {
            d.update(segment as int, d[segment as int] + bytes@)
        } else {
            d
        },
        LogEffect::Replace { bytes } => seq![bytes@],
    }
}

pub open spec fn apply_effects(d: Seq<Seq<u8>>, es: Seq<LogEffect>) -> Seq<Seq<u8>>
    decreases es.len(),
{
    if es.len() == 0 {
        d
    } else {
        apply_effect(apply_effects(d, es.drop_last()), es.last())
    }
}

/// Errors of the store.
#[derive(Debug)]
pub enum KvsError {
    /// `remove` of a key that has no live value.
    NonExistentKey(String),
    /// The log cannot grow by the record that the operation needs.
    StorageFull,
}

pub type Result<T> = std::result::Result<T, KvsError>;

/// A key-value store over a log of segments.
pub struct KvStore {
    segments: Vec<Vec<u8>>,
    index: Option<Vec<IndexEntry>>,
    active: bool,
    uncompacted: u64,
    log_size: usize,
    threshold: u64,
    pending: Vec<LogEffect>,
    synced: Ghost<Seq<Seq<u8>>>,
}

impl KvStore {
    /// The bytes of the segments, oldest first.
    pub closed spec fn log(&self) -> Seq<Seq<u8>> {
        self.segments@.map_values(|s: Vec<u8>| s@)
    }

    /// The segments as they stood when the queued effects were last taken.
    pub closed spec fn flushed(&self) -> Seq<Seq<u8>> {
        self.synced@
    }

    pub closed spec fn pending_effects(&self) -> Seq<LogEffect> {
        self.pending@
    }

    pub closed spec fn compaction_threshold(&self) -> u64 {
        self.threshold
    }

    /// Whether a write goes to a segment of this session already.
    pub closed spec fn has_active(&self) -> bool {
        self.active
    }

    pub closed spec fn index_built(&self) -> bool {
        self.index is Some
    }

    /// What replay of the log gives.
    pub open spec fn state(&self) -> Replayed {
        replay_all(self.log())
    }

    /// The live pairs, as UTF-8 bytes.
    pub open spec fn contents(&self) -> Map<Seq<u8>, Seq<u8>> {
        live(self.state().index, self.log())
    }

    /// The live value of `key`.
    pub open spec fn value_of(&self, key: Seq<char>) -> Option<Seq<char>> {
        let k = encode_utf8(key);
        if self.contents().contains_key(k) {
            Some(decode_utf8(self.contents()[k]))
        } else {
            None
        }
    }

    pub open spec fn uncompacted_bytes(&self) -> nat {
        self.state().uncompacted
    }

    pub open spec fn log_bytes(&self) -> nat {
        total_len(self.log())
    }

    /// The log that a write of this session appends to: a new, empty segment
    /// follows the others when the session has none yet.
    pub open spec fn session_log(&self) -> Seq<Seq<u8>> {
        if self.has_active() {
            self.log()
        } else {
            self.log().push(seq![])
        }
    }

    /// The log with the record of `c` appended to the session's segment.
    pub open spec fn appended(&self, c: Cmd) -> Seq<Seq<u8>> {
        let s = self.session_log();
        s.update(s.len() - 1, s.last() + encode(c))
    }

    /// Where the record of `c` lands when it is appended next.
    pub open spec fn next_pointer(&self, c: Cmd) -> LogPointer {
        let s = self.session_log();
        LogPointer {
            segment: (s.len() - 1) as nat as usize,
            offset: s.last().len() as usize,
            length: encode(c).len() as usize,
        }
    }

    /// Whether appending the record of `c` passes the compaction threshold.
    pub open spec fn compacts_after(&self, c: Cmd) -> bool {
        replay_all(self.appended(c)).uncompacted > self.compaction_threshold()
    }

    /// The length of the live record of `k`, or 0 when `k` has none.
    pub open spec fn live_len(&self, k: Seq<u8>) -> nat {
        let idx = self.state().index;
        if find_key(idx, k) >= 0 {
            idx[find_key(idx, k)].1.length as nat
        } else {
            0
        }
    }

    /// Whether the log can take one more record of `n` bytes.
    pub open spec fn room_for(&self, n: nat) -> bool {
        &&& self.log_bytes() + n <= usize::MAX
        &&& (self.has_active() || self.log().len() < usize::MAX)
    }

    pub closed spec fn wf(&self) -> bool {
        &&& fits(self.log())
        &&& self.log_size == total_len(self.log())
        &&& (self.index matches Some(v) ==> entries(v@) == self.state().index && self.uncompacted
            == self.state().uncompacted)
        &&& (self.active ==> self.log().len() > 0 && clean(self.log().last()))
        &&& apply_effects(self.synced@, self.pending@) == self.log()
    }

    /// Opens a store over the given segments, oldest first, with the default
    /// compaction threshold. The index is built on first use.
    pub fn open(segments: Vec<Vec<u8>>) -> (r: Result<KvStore>)
        ensures
            r is Ok <==> total_len(segments@.map_values(|v: Vec<u8>| v@)) <= usize::MAX,
            match r {
                Ok(s) => s.wf() && s.log() == segments@.map_values(|v: Vec<u8>| v@)
                    && s.compaction_threshold() == COMPACTION_THRESHOLD && s.flushed() == s.log()
                    && !s.has_active() && !s.index_built()
                    && s.pending_effects().len() == 0,
                Err(e) => e is StorageFull && total_len(segments@.map_values(|v: Vec<u8>| v@))
                    > usize::MAX,
            },
    {
        KvStore::open_with_threshold(segments, COMPACTION_THRESHOLD)
    }

    /// Opens a store that compacts once more than `threshold` bytes are
    /// reclaimable.
    pub fn open_with_threshold(segments: Vec<Vec<u8>>, threshold: u64) -> (r: Result<KvStore>)
        ensures
            r is Ok <==> total_len(segments@.map_values(|v: Vec<u8>| v@)) <= usize::MAX,
            match r {
                Ok(s) => s.wf() && s.log() == segments@.map_values(|v: Vec<u8>| v@)
                    && s.compaction_threshold() == threshold && s.flushed() == s.log()
                    && !s.has_active() && !s.index_built()
                    && s.pending_effects().len() == 0,
                Err(e) => e is StorageFull && total_len(segments@.map_values(|v: Vec<u8>| v@))
                    > usize::MAX,
            },
    {
        let ghost segs = segments@.map_values(|v: Vec<u8>| v@);
        let mut total: usize = 0;
        let mut i: usize = 0;
        while i < segments.len()
            invariant
                i <= segments@.len(),
                segs == segments@.map_values(|v: Vec<u8>| v@),
                total == total_len(segs.take(i as int)),
            decreases segments@.len() - i,
        {
            proof {
                lemma_total_prefix(segs, i as int);
            }
            let n = segments[i].len();
            if n > usize::MAX - total {
                proof {
                    lemma_total_prefix(segs, i as int);
                }
                return Err(KvsError::StorageFull);
            }
            total = total + n;
            i += 1;
        }
        assert(segs.take(segments@.len() as int) =~= segs);
        Ok(KvStore {
            segments,
            index: None,
            active: false,
            uncompacted: 0,
            log_size: total,
            threshold,
            pending: Vec::new(),
            synced: Ghost(segs),
        })
    }
}

impl KvStore {
    /// Builds the index by replaying every segment, unless it is built.
    fn build_index(&mut self)
        requires
            old(self).wf(),
        ensures
            final(self).wf(),
            final(self).index_built(),
            final(self).log() == old(self).log(),
            final(self).flushed() == old(self).flushed(),
            final(self).pending_effects() == old(self).pending_effects(),
            final(self).compaction_threshold() == old(self).compaction_threshold(),
            final(self).has_active() == old(self).has_active(),
    {
        if self.index.is_some() {
            return;
        }
        let ghost segs = self.log();
        let mut index: Vec<IndexEntry> = Vec::new();
        let mut unc: u64 = 0;
        let ghost mut st: Replayed = initial();
        proof {
            assert(entries(index@) =~= st.index);
            assert(segs.take(0) =~= Seq::<Seq<u8>>::empty());
        }
        let mut i: usize = 0;
        while i < self.segments.len()
            invariant
                self.wf(),
                self.log() == segs,
                i <= segs.len(),
                entries(index@) == st.index,
                unc == st.uncompacted,
                st == replay_all(segs.take(i as int)),
                accounted(st),
                index_ok(st.index, segs),
                st.consumed <= total_len(segs.take(i as int)),
            decreases segs.len() - i,
        {
            let seg = &self.segments[i];
            assert(seg@ == segs[i as int]);
            proof {
                lemma_total_prefix(segs, i as int);
                assert(segs.take(i + 1).drop_last() =~= segs.take(i as int));
            }
            let ghost st0 = st;
            let mut off: usize = 0;
            loop
                invariant
                    seg@ == segs[i as int],
                    i < segs.len(),
                    self.wf(),
                    self.log() == segs,
                    off <= seg@.len(),
                    entries(index@) == st.index,
                    unc == st.uncompacted,
                    replay_segment(st, seg@, i as nat, off as nat) == replay_segment(st0, seg@, i as nat, 0),
                    accounted(st),
                    index_ok(st.index, segs),
                    st.consumed <= total_len(segs.take(i as int)) + off,
                    total_len(segs.take(i as int)) + segs[i as int].len() <= total_len(segs),
                    total_len(segs.take(i + 1)) == total_len(segs.take(i as int)) + segs[i as int].len(),
                    segs.take(i + 1).drop_last() == segs.take(i as int),
                ensures
                    replay_segment(st, seg@, i as nat, off as nat) == st,
                decreases seg@.len() - off,
            {
                match decode_at(seg, off) {
                    None => {
                        break;
                    },
                    Some((cmd, n)) => {
                        let p = LogPointer { segment: i, offset: off, length: n };
                        let ghost c = cmd@;
                        proof {
                            lemma_decode_len(seg@.subrange(off as int, seg@.len() as int));
                            assert(record_at(segs, p) == decode(seg@.subrange(off as int, seg@.len() as int)));
                            assert(st.consumed + n <= total_len(segs));
                            lemma_step(st, c, p, segs);
                        }
                        apply_command(&mut index, &mut unc, cmd, p, Ghost(st));
                        proof {
                            st = step(st, c, p);
                        }
                        off = off + n;
                    },
                }
            }
            i += 1;
        }
        assert(segs.take(segs.len() as int) =~= segs);
        self.index = Some(index);
        self.uncompacted = unc;
    }

    /// The value of the `Put` record at `p`.
    fn read_value(&self, p: LogPointer, Ghost(k): Ghost<Seq<u8>>) -> (r: Vec<u8>)
        requires
            self.wf(),
            points_to(self.log(), p, k),
        ensures
            r@ == value_at(self.log(), p),
            valid_utf8(r@),
    {
        let seg = &self.segments[p.segment];
        assert(seg@ == self.log()[p.segment as int]);
        match decode_at(seg, p.offset) {
            Some((Command::Put { value, .. }, _)) => value,
            _ => Vec::new(),
        }
    }

    /// The live value of `key`, if it has one.
    pub fn get(&mut self, key: String) -> (r: Result<Option<String>>)
        requires
            old(self).wf(),
        ensures
            final(self).wf(),
            final(self).log() == old(self).log(),
            final(self).flushed() == old(self).flushed(),
            final(self).pending_effects() == old(self).pending_effects(),
            final(self).compaction_threshold() == old(self).compaction_threshold(),
            final(self).has_active() == old(self).has_active(),
            match r {
                Ok(Some(v)) => old(self).value_of(key@) == Some(v@),
                Ok(None) => old(self).value_of(key@) is None,
                Err(_) => false,
            },
    {
        self.build_index();
        let kb = key_bytes(&key);
        let ghost segs = self.log();
        proof {
            lemma_replay_all_ok(segs);
            lemma_find_key(self.state().index, kb@);
        }
        match &self.index {
            Some(index) => match find(index, &kb) {
                None => Ok(None),
                Some(i) => {
                    let p = index[i].pointer;
                    assert(entries(index@)[i as int] == (index@[i as int].key@, p));
                    let v = self.read_value(p, Ghost(kb@));
                    Ok(Some(string_from_utf8(v)))
                },
            },
            None => Ok(None),
        }
    }
}

impl KvStore {
    /// Appends the record of `cmd` to the active segment, creating one when
    /// this session has none, applies it to the index, and compacts when the
    /// reclaimable bytes pass the threshold.
    fn write_command(&mut self, cmd: Command) -> (r: Result<()>)
        requires
            old(self).wf(),
            old(self).index_built(),
            encodable(cmd@),
        ensures
            final(self).wf(),
            r is Ok <==> old(self).room_for(encode(cmd@).len()),
            r is Err ==> *final(self) == *old(self),
            r matches Err(e) ==> e is StorageFull,
            r is Ok ==> final(self).index_built() && final(self).contents() == applied(
                old(self).contents(),
                cmd@,
            ) && final(self).uncompacted_bytes() <= final(self).compaction_threshold(),
            r is Ok ==> replay_all(old(self).appended(cmd@)) == step(
                old(self).state(),
                cmd@,
                old(self).next_pointer(cmd@),
            ),
            r is Ok && !old(self).compacts_after(cmd@) ==> final(self).log() == old(self).appended(cmd@)
                && final(self).has_active() && final(self).log_bytes() == old(self).log_bytes()
                + encode(cmd@).len(),
            r is Ok && old(self).compacts_after(cmd@) ==> final(self).log().len() == 1
                && final(self).uncompacted_bytes() == 0 && !final(self).has_active()
                && final(self).log_bytes() == live_bytes(replay_all(old(self).appended(cmd@)).index)
                && final(self).log_bytes() + final(self).compaction_threshold() < old(self).log_bytes()
                + encode(cmd@).len() && final(self).log_bytes() == live_bytes(final(self).state().index)
                && final(self).state().index.len() == replay_all(
                old(self).appended(cmd@),
            ).index.len(),
            final(self).flushed() == old(self).flushed(),
            final(self).compaction_threshold() == old(self).compaction_threshold(),
    {
        let ghost c = cmd@;
        let ghost old_log = self.log();
        let bytes = encode_command(&cmd);
        proof {
            lemma_decode_encode(c, seq![]);
        }
        if !(self.active || self.segments.len() < usize::MAX) || bytes.len() > usize::MAX - self.log_size {
            return Err(KvsError::StorageFull);
        }
        let ghost segs1 = if self.active { old_log } else { old_log.push(seq![]) };
        let p = self.append_to_active(bytes, Ghost(c));
        let ghost segs2 = self.log();
        proof {
            lemma_append_record(segs1, c);
            assert(usize::MAX <= u64::MAX);
            assert(replay_all(segs2) == step(replay_all(segs1), c, p));
            assert(self.contents() == applied(old(self).contents(), c));
            assert(segs1 == old(self).session_log());
            assert(segs2 == old(self).appended(c));
            assert(p == old(self).next_pointer(c));
            lemma_replay_all_ok(segs2);
        }
        let mut index = match self.index.take() {
            Some(v) => v,
            None => Vec::new(),
        };
        apply_command(&mut index, &mut self.uncompacted, cmd, p, Ghost(replay_all(segs1)));
        self.index = Some(index);
        proof {
            assert(fits(self.log()));
            assert(self.log_size == total_len(self.log()));
            assert(entries(index@) == self.state().index);
            assert(self.uncompacted == self.state().uncompacted);
            assert(clean(self.log().last()));
            assert(self.wf());
        }
        if self.uncompacted > self.threshold {
            self.compact();
        }
        Ok(())
    }

    /// Appends the bytes of the record of `c` to the active segment,
    /// creating one when this session has none, and queues the change.
    fn append_to_active(&mut self, bytes: Vec<u8>, Ghost(c): Ghost<Cmd>) -> (p: LogPointer)
        requires
            old(self).wf(),
            bytes@ == encode(c),
            encodable(c),
            old(self).active || old(self).log().len() < usize::MAX,
            old(self).log_size + bytes@.len() <= usize::MAX,
        ensures
            ({
                let segs1 = if old(self).active { old(self).log() } else { old(self).log().push(seq![]) };
                &&& final(self).log() == segs1.update(segs1.len() - 1, segs1.last() + bytes@)
                &&& p == LogPointer {
                    segment: (segs1.len() - 1) as nat as usize,
                    offset: segs1.last().len() as usize,
                    length: encode(c).len() as usize,
                }
                &&& segs1.len() > 0
                &&& clean(segs1.last())
                &&& fits(segs1)
                &&& total_len(segs1) == total_len(old(self).log())
                &&& replay_all(segs1) == replay_all(old(self).log())
                &&& live(replay_all(old(self).log()).index, segs1) == live(
                    replay_all(old(self).log()).index,
                    old(self).log(),
                )
            }),
            final(self).active,
            final(self).index == old(self).index,
            final(self).uncompacted == old(self).uncompacted,
            final(self).threshold == old(self).threshold,
            final(self).synced == old(self).synced,
            final(self).log_size == old(self).log_size + bytes@.len(),
            apply_effects(final(self).synced@, final(self).pending@) == final(self).log(),
    {
        let ghost old_log = self.log();
        if !self.active {
            proof {
                lemma_push_empty_live(old_log);
            }
            self.segments.push(Vec::new());
            self.active = true;
            assert(self.log() =~= old_log.push(seq![]));
        }
        let ghost segs1 = self.log();
        let last = self.segments.len() - 1;
        let mut seg = self.segments.pop().unwrap();
        let off = seg.len();
        push_bytes(&mut seg, &bytes);
        self.segments.push(seg);
        let len = bytes.len();
        let ghost pending0 = self.pending@;
        self.pending.push(LogEffect::Append { segment: last, bytes });
        let ghost segs2 = self.log();
        proof {
            assert(segs2 =~= segs1.update(last as int, segs1.last() + encode(c)));
            assert(self.pending@.drop_last() =~= pending0);
            assert(apply_effect(old_log, self.pending@.last()) =~= segs2);
        }
        self.log_size = self.log_size + len;
        LogPointer { segment: last, offset: off, length: len }
    }

    /// Rewrites the live pairs, in index order, into a single new segment
    /// that replaces the log, and rebuilds the index from it.
    pub fn compact(&mut self)
        requires
            old(self).wf(),
        ensures
            final(self).wf(),
            final(self).index_built(),
            final(self).contents() == old(self).contents(),
            final(self).uncompacted_bytes() == 0,
            final(self).log_bytes() <= old(self).log_bytes(),
            final(self).log_bytes() == live_bytes(old(self).state().index),
            final(self).log_bytes() == live_bytes(final(self).state().index),
            final(self).state().index.len() == old(self).state().index.len(),
            !final(self).has_active(),
            final(self).log().len() == 1,
            final(self).flushed() == old(self).flushed(),
            final(self).compaction_threshold() == old(self).compaction_threshold(),
    {
        self.build_index();
        let ghost segs = self.log();
        let ghost idx = self.state().index;
        proof {
            lemma_replay_all_ok(segs);
            lemma_push_empty(seq![]);
            assert(Seq::<Seq<u8>>::empty().push(seq![]) =~= seq![Seq::<u8>::empty()]);
        }
        let mut seg: Vec<u8> = Vec::new();
        let ghost mut st: Replayed = initial();
        {
            let index = match &self.index {
                Some(v) => v,
                None => {
                    return;
                },
            };
            let mut j: usize = 0;
            while j < index.len()
                invariant
                    self.wf(),
                    self.log() == segs,
                    self.index == Some(*index),
                    entries(index@) == idx,
                    index_ok(idx, segs),
                    accounted(self.state()),
                    self.state().consumed <= total_len(segs),
                    j <= idx.len(),
                    st == replay_all(seq![seg@]),
                    accounted(st),
                    clean(seg@),
                    st.index.len() == j,
                    st.uncompacted == 0,
                    st.consumed == seg@.len(),
                    index_ok(st.index, seq![seg@]),
                    forall|t: int| 0 <= t < j ==> (#[trigger] st.index[t]).0 == idx[t].0,
                    forall|t: int| 0 <= t < j ==> value_at(seq![seg@], #[trigger] st.index[t].1)
                        == value_at(segs, idx[t].1),
                    seg@.len() == live_bytes(idx.take(j as int)),
                decreases idx.len() - j,
            {
                let ghost s0 = seg@;
                let e = &index[j];
                assert(idx[j as int] == (e.key@, e.pointer));
                assert(points_to(segs, idx[j as int].1, idx[j as int].0));
                let value = self.read_value(e.pointer, Ghost(e.key@));
                let key = copy_range(&e.key, 0, e.key.len());
                assert(key@ =~= e.key@);
                let cmd = Command::Put { key, value };
                let ghost c = cmd@;
                proof {
                    let sg = segs[e.pointer.segment as int];
                    lemma_decode_encodable(sg.subrange(e.pointer.offset as int, sg.len() as int));
                    lemma_live_prefix(idx, j as int);
                }
                let bytes = encode_command(&cmd);
                proof {
                    lemma_grow_one(s0, c);
                    let p = LogPointer { segment: 0, offset: s0.len() as usize, length: encode(c).len() as usize };
                    lemma_compact_step(st, seq![s0], seq![s0 + encode(c)], c, p, idx, segs, j as int);
                    st = step(st, c, p);
                }
                push_bytes(&mut seg, &bytes);
                j += 1;
            }
            proof {
                assert(idx.take(idx.len() as int) =~= idx);
                lemma_same_live(st.index, seq![seg@], idx, segs);
            }
        }
        let copy = copy_range(&seg, 0, seg.len());
        assert(copy@ =~= seg@);
        let ghost pending0 = self.pending@;
        self.pending.push(LogEffect::Replace { bytes: copy });
        let ghost new_log = seq![seg@];
        let size = seg.len();
        let mut segments: Vec<Vec<u8>> = Vec::new();
        segments.push(seg);
        self.segments = segments;
        self.index = None;
        self.active = false;
        self.uncompacted = 0;
        self.log_size = size;
        proof {
            assert(self.log() =~= new_log);
            assert(self.pending@.drop_last() =~= pending0);
            assert(new_log.drop_last() =~= Seq::<Seq<u8>>::empty());
            assert(fits(self.log()));
            assert(self.log_size == total_len(self.log()));
            assert(apply_effect(apply_effects(self.synced@, pending0), self.pending@.last()) =~= new_log);
        }
        self.build_index();
    }
}

impl KvStore {
    /// Sets `key` to `value`. Nothing is written when the key already holds
    /// that value.
    pub fn set(&mut self, key: String, value: String) -> (r: Result<()>)
        requires
            old(self).wf(),
        ensures
            final(self).wf(),
            final(self).flushed() == old(self).flushed(),
            final(self).compaction_threshold() == old(self).compaction_threshold(),
            r is Ok <==> old(self).value_of(key@) == Some(value@) || old(self).room_for(
                encode(Cmd::Put { key: encode_utf8(key@), value: encode_utf8(value@) }).len(),
            ),
            old(self).value_of(key@) == Some(value@) ==> final(self).log() == old(self).log()
                && final(self).pending_effects() == old(self).pending_effects()
                && final(self).uncompacted_bytes() == old(self).uncompacted_bytes(),
            r is Err ==> final(self).log() == old(self).log(),
            r matches Err(e) ==> e is StorageFull,
            r is Ok ==> final(self).contents() == old(self).contents().insert(
                encode_utf8(key@),
                encode_utf8(value@),
            ),
            r is Ok ==> final(self).value_of(key@) == Some(value@),
            r is Ok ==> forall|k: Seq<char>| k != key@ ==> #[trigger] final(self).value_of(k) == old(
                self,
            ).value_of(k),
            r is Ok && old(self).value_of(key@) != Some(value@) ==> final(self).uncompacted_bytes()
                <= final(self).compaction_threshold(),
            ({
                let c = Cmd::Put { key: encode_utf8(key@), value: encode_utf8(value@) };
                &&& r is Ok && old(self).value_of(key@) != Some(value@) ==> (old(self).compacts_after(c)
                    <==> old(self).uncompacted_bytes() + old(self).live_len(encode_utf8(key@))
                    > old(self).compaction_threshold())
                &&& r is Ok && old(self).value_of(key@) != Some(value@) && !old(self).compacts_after(c)
                    ==> final(self).log() == old(self).appended(c) && final(self).has_active()
                    && final(self).log_bytes() == old(self).log_bytes() + encode(c).len()
                    && final(self).uncompacted_bytes() == old(self).uncompacted_bytes()
                    + old(self).live_len(encode_utf8(key@))
                &&& r is Ok && old(self).value_of(key@) != Some(value@) && old(self).compacts_after(c)
                    ==> final(self).log().len() == 1 && final(self).uncompacted_bytes() == 0
                    && !final(self).has_active() && final(self).log_bytes() == live_bytes(
                    final(self).state().index,
                ) && final(self).log_bytes() + final(self).compaction_threshold() < old(
                    self,
                ).log_bytes() + encode(c).len()
            }),
    {
        self.build_index();
        let kb = key_bytes(&key);
        let vb = key_bytes(&value);
        let _ = kb.len();
        let _ = vb.len();
        let ghost segs = self.log();
        let ghost kv = encode_utf8(key@);
        proof {
            lemma_replay_all_ok(segs);
            lemma_find_key(self.state().index, kb@);
        }
        let same = match &self.index {
            Some(index) => match find(index, &kb) {
                Some(i) => {
                    let p = index[i].pointer;
                    assert(entries(index@)[i as int] == (index@[i as int].key@, p));
                    let cur = self.read_value(p, Ghost(kb@));
                    bytes_eq(&cur, &vb)
                },
                None => false,
            },
            None => false,
        };
        assert(same == (old(self).value_of(key@) == Some(value@)));
        if same {
            return Ok(());
        }
        let r = self.write_command(Command::Put { key: kb, value: vb });
        proof {
            assert forall|k: Seq<char>| k != key@ implies #[trigger] self.value_of(k) == old(self).value_of(k) by {
                assert(decode_utf8(encode_utf8(k)) == k);
            }
        }
        r
    }

    /// Removes `key`; fails when it has no live value.
    pub fn remove(&mut self, key: String) -> (r: Result<()>)
        requires
            old(self).wf(),
        ensures
            final(self).wf(),
            final(self).flushed() == old(self).flushed(),
            final(self).compaction_threshold() == old(self).compaction_threshold(),
            r is Ok <==> old(self).value_of(key@) is Some && old(self).room_for(
                encode(Cmd::Remove { key: encode_utf8(key@) }).len(),
            ),
            (r matches Err(KvsError::NonExistentKey(k)) && k@ == key@) <==> old(self).value_of(key@) is None,
            r matches Err(e) ==> e is StorageFull || (e matches KvsError::NonExistentKey(k) && k@ == key@),
            r is Err ==> final(self).log() == old(self).log(),
            r is Ok ==> final(self).contents() == old(self).contents().remove(encode_utf8(key@)),
            r is Ok ==> final(self).value_of(key@) is None,
            ({
                let c = Cmd::Remove { key: encode_utf8(key@) };
                &&& r is Ok ==> (old(self).compacts_after(c) <==> old(self).uncompacted_bytes()
                    + old(self).live_len(encode_utf8(key@)) + encode(c).len()
                    > old(self).compaction_threshold())
                &&& r is Ok && !old(self).compacts_after(c) ==> final(self).log() == old(self).appended(c)
                    && final(self).has_active() && final(self).log_bytes() == old(self).log_bytes()
                    + encode(c).len() && final(self).uncompacted_bytes() == old(self).uncompacted_bytes()
                    + old(self).live_len(encode_utf8(key@)) + encode(c).len()
                &&& r is Ok && old(self).compacts_after(c) ==> final(self).log().len() == 1
                    && final(self).uncompacted_bytes() == 0 && !final(self).has_active()
                    && final(self).log_bytes() == live_bytes(final(self).state().index)
                    && final(self).log_bytes() + final(self).compaction_threshold() < old(
                    self,
                ).log_bytes() + encode(c).len()
            }),
            r is Ok ==> forall|k: Seq<char>| k != key@ ==> #[trigger] final(self).value_of(k) == old(
                self,
            ).value_of(k),
    {
        self.build_index();
        let kb = key_bytes(&key);
        let _ = kb.len();
        let ghost segs = self.log();
        proof {
            lemma_replay_all_ok(segs);
            lemma_find_key(self.state().index, kb@);
        }
        let present = match &self.index {
            Some(index) => find(index, &kb).is_some(),
            None => false,
        };
        if !present {
            return Err(KvsError::NonExistentKey(key));
        }
        let r = self.write_command(Command::Remove { key: kb });
        proof {
            assert forall|k: Seq<char>| k != key@ implies #[trigger] self.value_of(k) == old(self).value_of(k) by {
                assert(decode_utf8(encode_utf8(k)) == k);
            }
        }
        r
    }
}

impl KvStore {
    /// Hands over the queued changes to the segments. Applied in order to the
    /// segments as they stood at the previous hand-over (or at `open`), they
    /// give the store's log.
    pub fn take_effects(&mut self) -> (r: Vec<LogEffect>)
        requires
            old(self).wf(),
        ensures
            final(self).wf(),
            apply_effects(old(self).flushed(), r@) == old(self).log(),
            final(self).log() == old(self).log(),
            final(self).flushed() == old(self).log(),
            final(self).pending_effects().len() == 0,
            final(self).compaction_threshold() == old(self).compaction_threshold(),
    {
        let mut r: Vec<LogEffect> = Vec::new();
        std::mem::swap(&mut r, &mut self.pending);
        self.synced = Ghost(self.log());
        r
    }

    /// The bytes of the segments, oldest first.
    pub fn segments(&self) -> (r: &Vec<Vec<u8>>)
        ensures
            r@.map_values(|v: Vec<u8>| v@) == self.log(),
    {
        &self.segments
    }

    /// The size of the log in bytes.
    pub fn log_size(&self) -> (r: usize)
        requires
            self.wf(),
        ensures
            r == self.log_bytes(),
    {
        self.log_size
    }

    /// The bytes of the log that no live value needs.
    pub fn uncompacted(&mut self) -> (r: u64)
        requires
            old(self).wf(),
        ensures
            final(self).wf(),
            final(self).log() == old(self).log(),
            final(self).flushed() == old(self).flushed(),
            final(self).pending_effects() == old(self).pending_effects(),
            final(self).compaction_threshold() == old(self).compaction_threshold(),
            r == old(self).uncompacted_bytes(),
    {
        self.build_index();
        self.uncompacted
    }
}

impl KvsError {
    /// The text that a client is shown.
    pub fn message(&self) -> (r: String)
        ensures
            r@ == match self {
                KvsError::NonExistentKey(k) => "Non-existent key: "@ + k@,
                KvsError::StorageFull => "Storage full"@,
            },
    {
        match self {
            KvsError::NonExistentKey(k) => String::from_str("Non-existent key: ").concat(k.as_str()),
            KvsError::StorageFull => String::from_str("Storage full"),
        }
    }
}

/// A value that `set` stored is what `get` returns next: a store whose
/// contents are those of `before` with `k` set to `v` has `v` for `k`.
pub proof fn law_get_after_set(before: KvStore, after: KvStore, k: Seq<char>, v: Seq<char>)
    requires
        after.contents() == before.contents().insert(encode_utf8(k), encode_utf8(v)),
    ensures
        after.value_of(k) == Some(v),
{
}

/// After `remove(k)`, `get(k)` finds nothing: a store whose contents are
/// those of `before` without `k` has no value for `k`.
pub proof fn law_get_after_remove(before: KvStore, after: KvStore, k: Seq<char>)
    requires
        after.contents() == before.contents().remove(encode_utf8(k)),
    ensures
        after.value_of(k) is None,
{
}

/// A store opened again over the same segments gives the same value for
/// every key and counts the same reclaimable bytes: all of it is a function
/// of the log.
pub proof fn law_reopen(s: KvStore, reopened: KvStore)
    requires
        reopened.log() == s.log(),
    ensures
        forall|k: Seq<char>| #[trigger] reopened.value_of(k) == s.value_of(k),
        reopened.uncompacted_bytes() == s.uncompacted_bytes(),
        reopened.log_bytes() == s.log_bytes(),
{
}

/// The UTF-8 bytes of `s`.
fn key_bytes(s: &String) -> (r: Vec<u8>)
    ensures
        r@ == encode_utf8(s@),
{
    vstd::slice::slice_to_vec(s.as_str().as_bytes())
}

fn bytes_eq(a: &Vec<u8>, b: &Vec<u8>) -> (r: bool)
    ensures
        r == (a@ == b@),
{
    if a.len() != b.len() {
        return false;
    }
    let mut i: usize = 0;
    while i < a.len()
        invariant
            a@.len() == b@.len(),
            i <= a@.len(),
            forall|j: int| 0 <= j < i ==> a@[j] == b@[j],
        decreases a@.len() - i,
    {
        if a[i] != b[i] {
            return false;
        }
        i += 1;
    }
    assert(a@ =~= b@);
    true
}

/// The position of `key` in the index.
fn find(index: &Vec<IndexEntry>, key: &Vec<u8>) -> (r: Option<usize>)
    ensures
        match r {
            Some(i) => find_key(entries(index@), key@) == i,
            None => find_key(entries(index@), key@) == -1,
        },
{
    let ghost idx = entries(index@);
    let mut i: usize = index.len();
    assert(idx.take(i as int) =~= idx);
    while i > 0
        invariant
            i <= index@.len(),
            idx == entries(index@),
            find_key(idx.take(i as int), key@) == find_key(idx, key@),
        decreases i,
    {
        i -= 1;
        assert(idx.take(i + 1).drop_last() =~= idx.take(i as int));
        if bytes_eq(&index[i].key, key) {
            return Some(i);
        }
    }
    None
}

/// Applies one record at `p` to the index and the reclaimable count.
fn apply_command(
    index: &mut Vec<IndexEntry>,
    uncompacted: &mut u64,
    cmd: Command,
    p: LogPointer,
    Ghost(st): Ghost<Replayed>,
)
    requires
        entries(old(index)@) == st.index,
        *old(uncompacted) == st.uncompacted,
        accounted(st),
        st.consumed + p.length <= u64::MAX,
    ensures
        entries(final(index)@) == step(st, cmd@, p).index,
        *final(uncompacted) == step(st, cmd@, p).uncompacted,
{
    proof {
        lemma_step_accounted(st, cmd@, p);
        lemma_find_key(st.index, cmd@.key());
    }
    let ghost st2 = step(st, cmd@, p);
    match cmd {
        Command::Put { key, value } => {
            match find(index, &key) {
                Some(i) => {
                    proof {
                        lemma_live_bytes_update(st.index, i as int, (key@, p));
                    }
                    let old_len = index[i].pointer.length;
                    *uncompacted = *uncompacted + old_len as u64;
                    index.set(i, IndexEntry { key, pointer: p });
                },
                None => {
                    index.push(IndexEntry { key, pointer: p });
                },
            }
        },
        Command::Remove { key } => {
            match find(index, &key) {
                Some(i) => {
                    proof {
                        lemma_live_bytes_remove(st.index, i as int);
                    }
                    let old_len = index[i].pointer.length;
                    *uncompacted = *uncompacted + old_len as u64 + p.length as u64;
                    index.remove(i);
                },
                None => {
                    *uncompacted = *uncompacted + p.length as u64;
                },
            }
        },
    }
    assert(entries(index@) =~= st2.index);
}

} // verus!
