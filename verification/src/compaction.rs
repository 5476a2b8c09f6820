//! Log compaction: a fresh log holding one `Put` record for each live key,
//! and the key index that points into it.
use vstd::prelude::*;
use crate::engine::{StorageEngine, live_at, pair_keys, spec_replay};
use crate::oplog::{LogOp, entry_at};
use crate::oplog::IndexEntry;
use crate::record::{RecordSpan, LEN_PREFIX, frame_record, spec_frame, spec_frames, spec_frame_spans, spec_scan, lemma_scan_frames};
use crate::strmap::StrMap;

verus! {

proof fn lemma_spans_len(ds: Seq<Seq<u8>>, base: int)
    ensures
        spec_frame_spans(ds, base).len() == ds.len(),
    decreases ds.len(),
{
    if ds.len() > 0 {
        lemma_spans_len(ds.drop_first(), base + 8 + ds[0].len());
    }
}

proof fn lemma_frames_push(ds: Seq<Seq<u8>>, d: Seq<u8>, base: int)
    ensures
        spec_frames(ds.push(d)) == spec_frames(ds) + spec_frame(d),
        spec_frame_spans(ds.push(d), base) == spec_frame_spans(ds, base).push(
            RecordSpan { offset: (base + spec_frames(ds).len() + 8) as u64, size: d.len() as u64 },
        ),
    decreases ds.len(),
{
    vstd::bytes::lemma_auto_spec_u64_to_from_le_bytes();
    if ds.len() == 0 {
        assert(ds.push(d).drop_first() =~= Seq::<Seq<u8>>::empty());
        assert(ds.push(d)[0] == d);
        assert(spec_frames(Seq::<Seq<u8>>::empty()) == Seq::<u8>::empty());
        assert(spec_frame_spans(Seq::<Seq<u8>>::empty(), base + 8 + d.len()) == Seq::<RecordSpan>::empty());
        assert(spec_frames(ds.push(d)) =~= spec_frame(d));
        assert(spec_frames(ds) =~= Seq::<u8>::empty());
        assert(spec_frame_spans(ds, base) =~= Seq::<RecordSpan>::empty());
        assert(spec_frame_spans(ds.push(d), base) =~= seq![RecordSpan { offset: (base + 8) as u64, size: d.len() as u64 }]);
    } else {
        let rest = ds.drop_first();
        assert(ds.push(d).drop_first() =~= rest.push(d));
        assert(ds.push(d)[0] == ds[0]);
        lemma_frames_push(rest, d, base + 8 + ds[0].len());
        assert(spec_frame(ds[0]).len() == 8 + ds[0].len());
        assert(spec_frames(ds.push(d)) =~= spec_frames(ds) + spec_frame(d));
        assert(spec_frame_spans(ds.push(d), base) =~= spec_frame_spans(ds, base).push(
            RecordSpan { offset: (base + spec_frames(ds).len() + 8) as u64, size: d.len() as u64 },
        ));
    }
}

/// A compaction in progress: the records written so far to the new log,
/// and the key index that points into them.
pub struct Compaction {
    index: StrMap<IndexEntry>,
    offset: u64,
    written: Ghost<Seq<Seq<u8>>>,
    keys: Ghost<Seq<Seq<char>>>,
}

impl Compaction {
    /// The data of each record written so far, in order.
    pub closed spec fn written(self) -> Seq<Seq<u8>> {
        self.written@
    }

    /// The new log's contents so far.
    pub open spec fn log(self) -> Seq<u8> {
        spec_frames(self.written())
    }

    /// The key of each record written so far, in order.
    pub closed spec fn record_keys(self) -> Seq<Seq<char>> {
        self.keys@
    }

    /// The new key index.
    pub closed spec fn index_view(self) -> Map<Seq<char>, IndexEntry> {
        self.index.view()
    }

    /// The length of the new log so far.
    pub closed spec fn offset_view(self) -> u64 {
        self.offset
    }

    pub closed spec fn wf(self) -> bool {
        &&& self.index.wf()
        &&& self.offset == spec_frames(self.written@).len()
        &&& self.keys@.len() == self.written@.len()
        &&& forall|i: int| 0 <= i < self.written@.len() ==> #[trigger] self.written@[i].len() <= u64::MAX
        &&& forall|i: int| 0 <= i < self.keys@.len() ==> self.index.view().contains_key(#[trigger] self.keys@[i])
        &&& forall|k: Seq<char>| #[trigger] self.index.view().contains_key(k) ==> exists|i: int|
            0 <= i < self.keys@.len() && self.keys@[i] == k
                && spec_frame_spans(self.written@, 0)[i].offset == self.index.view()[k].offset
                && spec_frame_spans(self.written@, 0)[i].size == self.index.view()[k].size
    }

    /// Starts a compaction: an empty new log and index.
    pub fn new() -> (c: Self)
        ensures
            c.wf(),
            c.written() == Seq::<Seq<u8>>::empty(),
            c.index_view() == Map::<Seq<char>, IndexEntry>::empty(),
            c.offset_view() == 0,
    {
        let c = Compaction {
            index: StrMap::new(),
            offset: 0,
            written: Ghost(Seq::empty()),
            keys: Ghost(Seq::empty()),
        };
        assert(spec_frames(Seq::<Seq<u8>>::empty()) =~= Seq::<u8>::empty());
        c
    }

    /// The length of the new log so far.
    pub fn offset(&self) -> (o: u64)
        ensures
            o == self.offset_view(),
    {
        self.offset
    }

    /// Adds the record `data` (a `Put` of `key`) to the new log and returns
    /// the framed bytes to write; the new index points `key` at it, keeping
    /// the entry's `expiry`.
    pub fn add(&mut self, key: String, data: &[u8], expiry: Option<u128>) -> (framed: Vec<u8>)
        requires
            old(self).wf(),
            old(self).offset_view() + LEN_PREFIX + data@.len() <= u64::MAX,
        ensures
            final(self).wf(),
            framed@ == spec_frame(data@),
            final(self).written() == old(self).written().push(data@),
            final(self).record_keys() == old(self).record_keys().push(key@),
            final(self).offset_view() == old(self).offset_view() + LEN_PREFIX + data@.len(),
            final(self).index_view() == old(self).index_view().insert(
                key@,
                IndexEntry {
                    offset: (old(self).offset_view() + LEN_PREFIX) as u64,
                    size: data@.len() as u64,
                    expiry,
                },
            ),
    {
        let ghost old_self = *self;
        let framed = frame_record(data);
        let size = data.len() as u64;
        let offset = self.offset + LEN_PREFIX;
        let ghost kv = key@;
        self.index.insert(key, IndexEntry { offset, size, expiry });
        self.offset = offset + size;
        proof {
            lemma_frames_push(old_self.written@, data@, 0);
            lemma_spans_len(old_self.written@, 0);
            vstd::bytes::lemma_auto_spec_u64_to_from_le_bytes();
            assert(spec_frame(data@).len() == 8 + data@.len());
            self.written = Ghost(old_self.written@.push(data@));
            self.keys = Ghost(old_self.keys@.push(kv));
            let n = old_self.written@.len();
            assert(spec_frame_spans(self.written@, 0)[n as int] == RecordSpan { offset, size });
            assert forall|k: Seq<char>| #[trigger] self.index.view().contains_key(k) implies exists|i: int|
                0 <= i < self.keys@.len() && self.keys@[i] == k
                    && spec_frame_spans(self.written@, 0)[i].offset == self.index.view()[k].offset
                    && spec_frame_spans(self.written@, 0)[i].size == self.index.view()[k].size by {
                if k == kv {
                    assert(self.keys@[n as int] == kv);
                } else {
                    assert(old_self.index.view().contains_key(k));
                    let i = choose|i: int|
                        0 <= i < old_self.keys@.len() && old_self.keys@[i] == k
                            && spec_frame_spans(old_self.written@, 0)[i].offset == old_self.index.view()[k].offset
                            && spec_frame_spans(old_self.written@, 0)[i].size == old_self.index.view()[k].size;
                    assert(self.keys@[i] == k);
                    assert(spec_frame_spans(self.written@, 0)[i] == spec_frame_spans(old_self.written@, 0)[i]);
                }
            }
            assert forall|i: int| 0 <= i < self.keys@.len() implies self.index.view().contains_key(#[trigger] self.keys@[i]) by {
                if i < n {
                    assert(self.keys@[i] == old_self.keys@[i]);
                    assert(old_self.index.view().contains_key(old_self.keys@[i]));
                }
            }
            assert forall|i: int| 0 <= i < self.written@.len() implies #[trigger] self.written@[i].len() <= u64::MAX by {
                if i < n {
                    assert(self.written@[i] == old_self.written@[i]);
                }
            }
        }
        framed
    }
}

/// Reading back the log a compaction wrote finds exactly the records it
/// added, in order, ending at the end of the log; and every key of the new
/// index points at the record written for it.
pub proof fn lemma_compacted_log_reads_back(c: Compaction)
    requires
        c.wf(),
    ensures
        spec_scan(c.log()) == (spec_frame_spans(c.written(), 0), c.log().len() as int),
        forall|k: Seq<char>| #[trigger] c.index_view().contains_key(k) ==> exists|i: int|
            0 <= i < c.record_keys().len() && c.record_keys()[i] == k
                && spec_scan(c.log()).0[i].offset == c.index_view()[k].offset
                && spec_scan(c.log()).0[i].size == c.index_view()[k].size,
{
    let empty: Seq<u8> = Seq::empty();
    lemma_scan_frames(c.written(), empty, 0);
    assert(c.log() + empty =~= c.log());
    assert(spec_scan(c.log()).0 == spec_frame_spans(c.written(), 0));
    assert forall|k: Seq<char>| #[trigger] c.index_view().contains_key(k) implies exists|i: int|
        0 <= i < c.record_keys().len() && c.record_keys()[i] == k
            && spec_scan(c.log()).0[i].offset == c.index_view()[k].offset
            && spec_scan(c.log()).0[i].size == c.index_view()[k].size by {
        let i = choose|i: int|
            0 <= i < c.keys@.len() && c.keys@[i] == k
                && spec_frame_spans(c.written@, 0)[i].offset == c.index.view()[k].offset
                && spec_frame_spans(c.written@, 0)[i].size == c.index.view()[k].size;
        assert(spec_scan(c.log()).0[i] == spec_frame_spans(c.written@, 0)[i]);
        assert(0 <= i < c.record_keys().len() && c.record_keys()[i] == k
            && spec_scan(c.log()).0[i].offset == c.index_view()[k].offset
            && spec_scan(c.log()).0[i].size == c.index_view()[k].size);
    }
}

/// The records kept by a compaction, in order: the data of every record
/// that was produced (`Some`).
pub open spec fn spec_kept(recs: Seq<Option<Vec<u8>>>) -> Seq<Seq<u8>>
    decreases recs.len(),
{
    if recs.len() == 0 {
        Seq::empty()
    } else {
        let p = spec_kept(recs.drop_last());
        match recs.last() {
            Some(d) => p.push(d@),
            None => p,
        }
    }
}

/// The keys of the first `n` live entries for which a record was produced, in order.
pub open spec fn spec_kept_keys(live: Seq<(String, IndexEntry)>, recs: Seq<Option<Vec<u8>>>, n: int) -> Seq<Seq<char>>
    decreases n,
{
    if n <= 0 {
        Seq::empty()
    } else {
        let p = spec_kept_keys(live, recs, n - 1);
        if recs[n - 1] is Some {
            p.push(live[n - 1].0@)
        } else {
            p
        }
    }
}

/// Whether the entry `e` locates exactly the bytes `data` in `log`.
pub open spec fn locates(log: Seq<u8>, e: IndexEntry, data: Seq<u8>) -> bool {
    &&& e.offset + e.size <= log.len()
    &&& log.subrange(e.offset as int, e.offset + e.size) == data
}

/// Whether the i-th live entry is rewritten: its key, with a record produced for it.
pub open spec fn rewritten(live: Seq<(String, IndexEntry)>, recs: Seq<Option<Vec<u8>>>, k: Seq<char>) -> bool {
    exists|i: int| 0 <= i < live.len() && live[i].0@ == k && (#[trigger] recs[i]) is Some
}

proof fn lemma_kept_grows(recs: Seq<Option<Vec<u8>>>, i: int, j: int)
    requires
        0 <= i <= j <= recs.len(),
    ensures
        spec_frames(spec_kept(recs.take(i))).len() <= spec_frames(spec_kept(recs.take(j))).len(),
    decreases j - i,
{
    if i < j {
        lemma_kept_grows(recs, i, j - 1);
        let t = recs.take(j);
        assert(t.drop_last() =~= recs.take(j - 1));
        match t.last() {
            Some(d) => {
                lemma_frames_push(spec_kept(recs.take(j - 1)), d@, 0);
                vstd::bytes::lemma_auto_spec_u64_to_from_le_bytes();
            },
            None => {},
        }
    }
}

/// Builds a compaction from the live entries `live` (key and entry) and,
/// for each, the record to write for it (`records[i]`: a `Put` of its key
/// and current value, or none when its value could not be read). Returns
/// the compaction and the framed bytes of each kept record, in order; none
/// when the new log would be longer than `u64::MAX` bytes.
pub fn compact_records(live: &Vec<(String, IndexEntry)>, records: &Vec<Option<Vec<u8>>>) -> (r: Option<(Compaction, Vec<Vec<u8>>)>)
    requires
        live@.len() == records@.len(),
        pair_keys(live@).no_duplicates(),
    ensures
        match r {
            Some((c, framed)) => {
                &&& c.wf()
                &&& c.record_keys().no_duplicates()
                &&& c.record_keys() == spec_kept_keys(live@, records@, live@.len() as int)
                &&& c.written() == spec_kept(records@)
                &&& forall|i: int| 0 <= i < live@.len() && (#[trigger] records@[i]) is Some
                    ==> locates(c.log(), c.index_view()[live@[i].0@], (records@[i]->0)@)
                &&& framed@.len() == c.written().len()
                &&& forall|j: int| 0 <= j < framed@.len() ==> (#[trigger] framed@[j])@ == spec_frame(c.written()[j])
                &&& forall|k: Seq<char>| #[trigger] c.index_view().contains_key(k) <==> rewritten(live@, records@, k)
                &&& forall|i: int| 0 <= i < live@.len() && (#[trigger] records@[i]) is Some
                    ==> c.index_view()[live@[i].0@].expiry == live@[i].1.expiry
            },
            None => spec_frames(spec_kept(records@)).len() > u64::MAX,
        },
{
    let mut c = Compaction::new();
    let mut framed: Vec<Vec<u8>> = Vec::new();
    let n = live.len();
    let mut i: usize = 0;
    assert(spec_frames(spec_kept(records@.take(0))) =~= Seq::<u8>::empty()) by {
        assert(records@.take(0) =~= Seq::<Option<Vec<u8>>>::empty());
    }
    while i < n
        invariant
            n == live@.len(),
            n == records@.len(),
            i <= n,
            pair_keys(live@).no_duplicates(),
            c.wf(),
            c.record_keys().no_duplicates(),
            c.record_keys() == spec_kept_keys(live@, records@, i as int),
            forall|j: int| 0 <= j < i && (#[trigger] records@[j]) is Some
                ==> locates(c.log(), c.index_view()[live@[j].0@], (records@[j]->0)@),
            forall|t: int| 0 <= t < c.record_keys().len() ==> exists|j: int|
                0 <= j < i && live@[j].0@ == #[trigger] c.record_keys()[t],
            c.written() == spec_kept(records@.take(i as int)),
            framed@.len() == c.written().len(),
            forall|j: int| 0 <= j < framed@.len() ==> (#[trigger] framed@[j])@ == spec_frame(c.written()[j]),
            forall|k: Seq<char>| #[trigger] c.index_view().contains_key(k) <==> (exists|j: int|
                0 <= j < i && live@[j].0@ == k && (#[trigger] records@[j]) is Some),
            forall|j: int| 0 <= j < i && (#[trigger] records@[j]) is Some
                ==> c.index_view()[live@[j].0@].expiry == live@[j].1.expiry,
        decreases n - i,
    {
        let ghost t = records@.take(i + 1);
        assert(t.drop_last() =~= records@.take(i as int));
        assert(t.last() == records@[i as int]);
        match &records[i] {
            Some(d) => {
                let off = c.offset();
                if off > u64::MAX - LEN_PREFIX || d.len() as u64 > u64::MAX - LEN_PREFIX - off {
                    proof {
                        lemma_frames_push(c.written(), d@, 0);
                        vstd::bytes::lemma_auto_spec_u64_to_from_le_bytes();
                        assert(spec_frame(d@).len() == 8 + d@.len());
                        lemma_kept_grows(records@, i + 1, n as int);
                        assert(records@.take(n as int) =~= records@);
                    }
                    return None;
                }
                let ghost old_c = c;
                let ghost ki = live@[i as int].0@;
                let ghost old_keys = pair_keys(live@);
                let key = live[i].0.clone();
                let expiry = live[i].1.expiry;
                let f = c.add(key, d.as_slice(), expiry);
                framed.push(f);
                proof {
                    let rk = c.record_keys();
                    let ork = old_c.record_keys();
                    assert(rk == ork.push(ki));
                    lemma_frames_push(old_c.written(), d@, 0);
                    vstd::bytes::lemma_auto_spec_u64_to_from_le_bytes();
                    let ol = old_c.log();
                    let fr = spec_frame(d@);
                    assert(c.log() == ol + fr);
                    assert(ol.len() == off);
                    assert(fr.len() == 8 + d@.len());
                    assert((ol + fr).subrange(off + 8, off + 8 + d@.len()) =~= d@);
                    assert forall|j: int| 0 <= j < i + 1 && (#[trigger] records@[j]) is Some
                        implies locates(c.log(), c.index_view()[live@[j].0@], (records@[j]->0)@) by {
                        if j < i {
                            assert(old_keys[j] == live@[j].0@ && old_keys[i as int] == ki);
                            assert(live@[j].0@ != ki);
                            let e = old_c.index_view()[live@[j].0@];
                            assert(locates(ol, e, (records@[j]->0)@));
                            assert((ol + fr).subrange(e.offset as int, e.offset + e.size)
                                =~= ol.subrange(e.offset as int, e.offset + e.size));
                        } else {
                            assert(records@[j] == records@[i as int]);
                        }
                    }
                    assert(!ork.contains(ki)) by {
                        if ork.contains(ki) {
                            let t = choose|t: int| 0 <= t < ork.len() && ork[t] == ki;
                            let j = choose|j: int| 0 <= j < i && live@[j].0@ == #[trigger] ork[t];
                            assert(old_keys[j] == live@[j].0@ && old_keys[i as int] == ki);
                        }
                    }
                    assert forall|a: int, b: int| 0 <= a < rk.len() && 0 <= b < rk.len() && a != b implies rk[a] != rk[b] by {
                        if a < ork.len() && b < ork.len() {
                        } else if a == ork.len() {
                            assert(rk[b] == ork[b]);
                            assert(ork.contains(ork[b]));
                        } else {
                            assert(rk[a] == ork[a]);
                            assert(ork.contains(ork[a]));
                        }
                    }
                    assert forall|t: int| 0 <= t < rk.len() implies exists|j: int|
                        0 <= j < i + 1 && live@[j].0@ == #[trigger] rk[t] by {
                        if t < ork.len() {
                            assert(rk[t] == ork[t]);
                            let j = choose|j: int| 0 <= j < i && live@[j].0@ == #[trigger] ork[t];
                        } else {
                            assert(rk[t] == ki);
                        }
                    }
                    assert forall|j: int| 0 <= j < framed@.len() implies (#[trigger] framed@[j])@ == spec_frame(c.written()[j]) by {
                        if j < framed@.len() - 1 {
                            assert(c.written()[j] == old_c.written()[j]);
                        }
                    }
                    assert forall|k: Seq<char>| #[trigger] c.index_view().contains_key(k) <==> (exists|j: int|
                        0 <= j < i + 1 && live@[j].0@ == k && (#[trigger] records@[j]) is Some) by {
                        if k != ki && c.index_view().contains_key(k) {
                            assert(old_c.index_view().contains_key(k));
                        }
                    }
                    assert forall|j: int| 0 <= j < i + 1 && (#[trigger] records@[j]) is Some
                        implies c.index_view()[live@[j].0@].expiry == live@[j].1.expiry by {
                        if j < i {
                            assert(old_keys[j] == live@[j].0@ && old_keys[i as int] == ki);
                            assert(live@[j].0@ != ki);
                        }
                    }
                }
            },
            None => {
                proof {
                    assert forall|j: int| 0 <= j < i + 1 && (#[trigger] records@[j]) is Some
                        implies locates(c.log(), c.index_view()[live@[j].0@], (records@[j]->0)@) by {
                        assert(j != i);
                    }
                    assert forall|k: Seq<char>| #[trigger] c.index_view().contains_key(k) <==> (exists|j: int|
                        0 <= j < i + 1 && live@[j].0@ == k && (#[trigger] records@[j]) is Some) by {
                        if exists|j: int| 0 <= j < i + 1 && live@[j].0@ == k && (#[trigger] records@[j]) is Some {
                            let j = choose|j: int| 0 <= j < i + 1 && live@[j].0@ == k && (#[trigger] records@[j]) is Some;
                            assert(j != i);
                        }
                    }
                }
            },
        }
        i = i + 1;
    }
    assert(records@.take(n as int) =~= records@);
    Some((c, framed))
}

/// Compaction keeps every live key: given the entries that are live at
/// `now` in the index `m` (as `live_entries` gives them) and the compaction
/// built from them, the new index holds exactly the keys that are present
/// and live in `m` and whose value could be rewritten, each with its
/// expiry, each locating in the new log exactly the record written for it
/// (the record of its own key and current value).
pub proof fn lemma_compaction_keeps_live_keys(
    m: Map<Seq<char>, IndexEntry>,
    now: u128,
    live: Seq<(String, IndexEntry)>,
    records: Seq<Option<Vec<u8>>>,
    c: Compaction,
)
    requires
        live.len() == records.len(),
        forall|k: Seq<char>| #[trigger] pair_keys(live).contains(k) <==> (m.contains_key(k) && live_at(m[k], now)),
        forall|i: int| 0 <= i < live.len() ==> #[trigger] m[live[i].0@] == live[i].1,
        c.wf(),
        forall|k: Seq<char>| #[trigger] c.index_view().contains_key(k) <==> rewritten(live, records, k),
        forall|i: int| 0 <= i < live.len() && (#[trigger] records[i]) is Some
            ==> c.index_view()[live[i].0@].expiry == live[i].1.expiry,
        forall|i: int| 0 <= i < live.len() && (#[trigger] records[i]) is Some
            ==> locates(c.log(), c.index_view()[live[i].0@], (records[i]->0)@),
    ensures
        forall|k: Seq<char>| #[trigger] c.index_view().contains_key(k) ==> exists|i: int|
            0 <= i < live.len() && live[i].0@ == k && records[i] is Some
                && locates(c.log(), c.index_view()[k], (records[i]->0)@),
        forall|k: Seq<char>| #[trigger] c.index_view().contains_key(k) ==> m.contains_key(k) && live_at(m[k], now)
            && c.index_view()[k].expiry == m[k].expiry,
        forall|k: Seq<char>| m.contains_key(k) && live_at(m[k], now) && rewritten(live, records, k)
            ==> #[trigger] c.index_view().contains_key(k),
        forall|k: Seq<char>| #[trigger] c.index_view().contains_key(k) ==> exists|i: int|
            0 <= i < c.record_keys().len() && c.record_keys()[i] == k
                && spec_scan(c.log()).0[i].offset == c.index_view()[k].offset
                && spec_scan(c.log()).0[i].size == c.index_view()[k].size,
{
    lemma_compacted_log_reads_back(c);
    assert forall|k: Seq<char>| #[trigger] c.index_view().contains_key(k) implies m.contains_key(k) && live_at(m[k], now)
        && c.index_view()[k].expiry == m[k].expiry by {
        let i = choose|i: int| 0 <= i < live.len() && live[i].0@ == k && (#[trigger] records[i]) is Some;
        assert(pair_keys(live)[i] == k);
        assert(pair_keys(live).contains(k));
    }
}

proof fn lemma_replay_prefix(ops: Seq<LogOp>, spans: Seq<RecordSpan>, keys: Seq<Seq<char>>, j: int)
    requires
        0 <= j <= ops.len(),
        ops.len() == spans.len(),
        ops.len() == keys.len(),
        keys.no_duplicates(),
        forall|i: int| 0 <= i < ops.len() ==> ((#[trigger] ops[i]) matches LogOp::Put { key, .. } && key@ == keys[i]),
    ensures
        forall|k: Seq<char>| #[trigger] spec_replay(Map::empty(), ops.take(j), spans.take(j)).contains_key(k)
            <==> exists|i: int| 0 <= i < j && keys[i] == k,
        forall|i: int| 0 <= i < j ==> ((#[trigger] ops[i]) matches LogOp::Put { expiry, .. }
            && spec_replay(Map::empty(), ops.take(j), spans.take(j))[keys[i]] == entry_at(spans[i], expiry)),
    decreases j,
{
    if j > 0 {
        lemma_replay_prefix(ops, spans, keys, j - 1);
        assert(ops.take(j).drop_last() =~= ops.take(j - 1));
        assert(spans.take(j).drop_last() =~= spans.take(j - 1));
        assert(ops.take(j).last() == ops[j - 1]);
        assert(spans.take(j).last() == spans[j - 1]);
        let m = spec_replay(Map::<Seq<char>, IndexEntry>::empty(), ops.take(j), spans.take(j));
        assert forall|i: int| 0 <= i < j implies ((#[trigger] ops[i]) matches LogOp::Put { expiry, .. }
            && m[keys[i]] == entry_at(spans[i], expiry)) by {
            if i < j - 1 {
                assert(keys[i] != keys[j - 1]);
            }
        }
    }
}

/// Reopening a compacted log gives back the compaction's index: when the
/// records it wrote decode to `Put`s of their keys (distinct), each with
/// the expiry the new index keeps for it, replaying the new log yields
/// exactly the new index.
pub proof fn lemma_compacted_log_reopens(c: Compaction, ops: Seq<LogOp>)
    requires
        c.wf(),
        c.record_keys().no_duplicates(),
        ops.len() == c.written().len(),
        forall|i: int| 0 <= i < ops.len() ==> ((#[trigger] ops[i]) matches LogOp::Put { key, expiry, .. }
            && key@ == c.record_keys()[i] && expiry == c.index_view()[key@].expiry),
    ensures
        spec_replay(Map::empty(), ops, spec_scan(c.log()).0) == c.index_view(),
{
    lemma_compacted_log_reads_back(c);
    lemma_spans_len(c.written(), 0);
    let spans = spec_scan(c.log()).0;
    let keys = c.record_keys();
    let n = ops.len() as int;
    lemma_replay_prefix(ops, spans, keys, n);
    assert(ops.take(n) =~= ops);
    assert(spans.take(n) =~= spans);
    let m = spec_replay(Map::<Seq<char>, IndexEntry>::empty(), ops, spans);
    assert forall|k: Seq<char>| #[trigger] m.contains_key(k) <==> c.index_view().contains_key(k) by {
        if m.contains_key(k) {
            let i = choose|i: int| 0 <= i < n && keys[i] == k;
            assert(c.index.view().contains_key(c.keys@[i]));
        }
    }
    assert forall|k: Seq<char>| #[trigger] m.contains_key(k) implies m[k] == c.index_view()[k] by {
        let i = choose|i: int| 0 <= i < n && keys[i] == k;
        let i2 = choose|i2: int| 0 <= i2 < c.record_keys().len() && c.record_keys()[i2] == k
            && spec_scan(c.log()).0[i2].offset == c.index_view()[k].offset
            && spec_scan(c.log()).0[i2].size == c.index_view()[k].size;
        assert(i == i2);
        assert(ops[i] matches LogOp::Put { expiry, .. } && m[keys[i]] == entry_at(spans[i], expiry));
    }
    assert(m =~= c.index_view());
}

impl StorageEngine {
    /// Replaces the key index with the one a finished compaction built, and
    /// continues appending at the end of the compacted log. The secondary
    /// indexes are left as they are.
    pub fn install_compacted(&mut self, c: Compaction)
        requires
            old(self).wf(),
            c.wf(),
        ensures
            final(self).wf(),
            final(self).index_view() == c.index_view(),
            final(self).offset_view() == c.offset_view(),
            final(self).secondary_view() == old(self).secondary_view(),
            final(self).policy_view() == old(self).policy_view(),
    {
        self.replace_index(c.index, c.offset);
    }
}

} // verus!
