//! The append-only log format: each record is an 8-byte little-endian
//! length followed by that many bytes of serialized operation.
use vstd::prelude::*;
use vstd::bytes::{spec_u64_to_le_bytes, spec_u64_from_le_bytes};

verus! {

/// Where a record's data lies in the log: it starts at byte `offset`
/// (just after the length prefix) and is `size` bytes long.
#[derive(Debug, Clone, Copy, PartialEq, Eq, Structural)]
pub struct RecordSpan {
    pub offset: u64,
    pub size: u64,
}

/// The length of a record's length prefix.
pub const LEN_PREFIX: u64 = 8;

/// The bytes that frame `data` as one record.
pub open spec fn spec_frame(data: Seq<u8>) -> Seq<u8> {
    spec_u64_to_le_bytes(data.len() as u64) + data
}

/// The record spans found by reading `rest`, which begins at absolute
/// position `base`, together with the position where reading stopped:
/// the start of the first incomplete record, or the end of the bytes.
pub open spec fn scan_from(rest: Seq<u8>, base: int) -> (Seq<RecordSpan>, int)
    decreases rest.len(),
{
    if rest.len() < 8 {
        (Seq::empty(), base)
    } else {
        let size = spec_u64_from_le_bytes(rest.subrange(0, 8));
        if size > rest.len() - 8 {
            (Seq::empty(), base)
        } else {
            let next = scan_from(rest.subrange(8 + size, rest.len() as int), base + 8 + size);
            (seq![RecordSpan { offset: (base + 8) as u64, size: size }] + next.0, next.1)
        }
    }
}

/// The record spans of a whole log, and the end of its last complete record.
pub open spec fn spec_scan(log: Seq<u8>) -> (Seq<RecordSpan>, int) {
    scan_from(log, 0)
}

/// The log made of one framed record for each element of `ds`, in order.
pub open spec fn spec_frames(ds: Seq<Seq<u8>>) -> Seq<u8>
    decreases ds.len(),
{
    if ds.len() == 0 {
        Seq::empty()
    } else {
        spec_frame(ds[0]) + spec_frames(ds.drop_first())
    }
}

/// The spans at which the records of `spec_frames(ds)` lie, when that log
/// starts at absolute position `base`.
pub open spec fn spec_frame_spans(ds: Seq<Seq<u8>>, base: int) -> Seq<RecordSpan>
    decreases ds.len(),
{
    if ds.len() == 0 {
        Seq::empty()
    } else {
        seq![RecordSpan { offset: (base + 8) as u64, size: ds[0].len() as u64 }]
            + spec_frame_spans(ds.drop_first(), base + 8 + ds[0].len())
    }
}

/// Bytes that do not hold a complete record: fewer than eight bytes, or a
/// length prefix that announces more bytes than follow it.
pub open spec fn incomplete_tail(tail: Seq<u8>) -> bool {
    tail.len() < 8 || spec_u64_from_le_bytes(tail.subrange(0, 8)) > tail.len() - 8
}

/// The result of reading a log: the complete records, in order, and the
/// position just past the last of them.
pub struct LogScan {
    pub records: Vec<RecordSpan>,
    pub end: u64,
}

proof fn lemma_le_bytes_roundtrip(n: u64)
    ensures
        spec_u64_to_le_bytes(n).len() == 8,
        spec_u64_from_le_bytes(spec_u64_to_le_bytes(n)) == n,
{
    vstd::bytes::lemma_auto_spec_u64_to_from_le_bytes();
}

/// Frames `data` as one record: its length as 8 little-endian bytes, then the data.
pub fn frame_record(data: &[u8]) -> (framed: Vec<u8>)
    requires
        data@.len() <= u64::MAX,
    ensures
        framed@ == spec_frame(data@),
{
    let n = data.len() as u64;
    let mut framed = vstd::bytes::u64_to_le_bytes(n);
    let mut i: usize = 0;
    while i < data.len()
        invariant
            i <= data@.len(),
            framed@ == spec_u64_to_le_bytes(n) + data@.subrange(0, i as int),
        decreases data@.len() - i,
    {
        framed.push(data[i]);
        i = i + 1;
        assert(framed@ =~= spec_u64_to_le_bytes(n) + data@.subrange(0, i as int));
    }
    assert(data@.subrange(0, data@.len() as int) =~= data@);
    framed
}

/// Reads the little-endian length prefix that starts at `pos`.
fn read_len_prefix(buf: &[u8], pos: usize) -> (n: u64)
    requires
        pos + 8 <= buf@.len(),
    ensures
        n == spec_u64_from_le_bytes(buf@.subrange(pos as int, pos + 8)),
{
    let l = buf.len();
    assert(pos + 8 <= l);
    let prefix = vstd::slice::slice_subrange(buf, pos, pos + 8);
    vstd::bytes::u64_from_le_bytes(prefix)
}

proof fn lemma_scan_step(buf: Seq<u8>, cursor: int, size: int)
    requires
        0 <= cursor,
        cursor + 8 <= buf.len(),
        size == spec_u64_from_le_bytes(buf.subrange(cursor, cursor + 8)),
    ensures
        buf.subrange(cursor, buf.len() as int).subrange(0, 8) == buf.subrange(cursor, cursor + 8),
        size <= buf.len() - cursor - 8 ==> buf.subrange(cursor, buf.len() as int).subrange(
            8 + size,
            buf.len() - cursor,
        ) == buf.subrange(cursor + 8 + size, buf.len() as int),
{
    assert(buf.subrange(cursor, buf.len() as int).subrange(0, 8) =~= buf.subrange(cursor, cursor + 8));
    if size <= buf.len() - cursor - 8 {
        assert(buf.subrange(cursor, buf.len() as int).subrange(8 + size, buf.len() - cursor)
            =~= buf.subrange(cursor + 8 + size, buf.len() as int));
    }
}

proof fn lemma_scan_from_offsets(rest: Seq<u8>, base: int)
    requires
        0 <= base,
        base + rest.len() <= u64::MAX,
    ensures
        forall|i: int| 0 <= i < scan_from(rest, base).0.len() ==> #[trigger] scan_from(rest, base).0[i].offset >= base + 8,
    decreases rest.len(),
{
    if rest.len() >= 8 {
        let size = spec_u64_from_le_bytes(rest.subrange(0, 8));
        if size <= rest.len() - 8 {
            let rest2 = rest.subrange(8 + size, rest.len() as int);
            lemma_scan_from_offsets(rest2, base + 8 + size);
            let sp = scan_from(rest, base).0;
            let nx = scan_from(rest2, base + 8 + size).0;
            assert forall|i: int| 0 <= i < sp.len() implies #[trigger] sp[i].offset >= base + 8 by {
                if i > 0 {
                    assert(sp[i] == nx[i - 1]);
                }
            }
        }
    }
}

/// Every record of a log begins after its length prefix.
pub proof fn lemma_scan_offsets(log: Seq<u8>)
    requires
        log.len() <= u64::MAX,
    ensures
        forall|i: int| 0 <= i < spec_scan(log).0.len() ==> #[trigger] spec_scan(log).0[i].offset >= LEN_PREFIX,
{
    lemma_scan_from_offsets(log, 0);
}

/// Reads a whole log and returns the spans of its complete records, in
/// order. Reading stops at the first incomplete record (a crash may leave
/// one at the end); `end` is where that record begins, or the end of the log.
pub fn scan_log(buf: &[u8]) -> (scan: LogScan)
    requires
        buf@.len() <= u64::MAX,
    ensures
        scan.records@ == spec_scan(buf@).0,
        scan.end == spec_scan(buf@).1,
{
    let len = buf.len();
    let mut records: Vec<RecordSpan> = Vec::new();
    let mut cursor: usize = 0;
    assert(buf@.subrange(0, buf@.len() as int) =~= buf@);
    loop
        invariant
            len == buf@.len(),
            len <= u64::MAX,
            cursor <= len,
            records@ + scan_from(buf@.subrange(cursor as int, len as int), cursor as int).0
                == spec_scan(buf@).0,
            scan_from(buf@.subrange(cursor as int, len as int), cursor as int).1 == spec_scan(buf@).1,
        decreases len - cursor,
    {
        let ghost rest = buf@.subrange(cursor as int, len as int);
        if len - cursor < 8 {
            assert(records@ + Seq::<RecordSpan>::empty() =~= records@);
            return LogScan { records, end: cursor as u64 };
        }
        let size = read_len_prefix(buf, cursor);
        proof {
            lemma_scan_step(buf@, cursor as int, size as int);
        }
        if size > (len - cursor - 8) as u64 {
            assert(records@ + Seq::<RecordSpan>::empty() =~= records@);
            return LogScan { records, end: cursor as u64 };
        }
        let data_offset = cursor + 8;
        let ghost old_records = records@;
        records.push(RecordSpan { offset: data_offset as u64, size });
        cursor = data_offset + size as usize;
        proof {
            let span = RecordSpan { offset: data_offset as u64, size: size };
            let next = scan_from(buf@.subrange(cursor as int, len as int), cursor as int);
            assert(scan_from(rest, (cursor - 8 - size) as int).0 == seq![span] + next.0);
            assert(old_records + (seq![span] + next.0) =~= records@ + next.0);
        }
    }
}

/// Reading a log that ends with a complete record and then has more bytes
/// appended finds the records of the first part, then those of the rest.
proof fn lemma_scan_concat(a: Seq<u8>, b: Seq<u8>, base: int)
    requires
        0 <= base,
        scan_from(a, base).1 == base + a.len(),
    ensures
        scan_from(a + b, base) == (
            scan_from(a, base).0 + scan_from(b, base + a.len()).0,
            scan_from(b, base + a.len()).1,
        ),
    decreases a.len(),
{
    if a.len() == 0 {
        assert(a + b =~= b);
        assert(scan_from(a, base).0 + scan_from(b, base).0 =~= scan_from(b, base).0);
    } else {
        // `a` is not empty and its reading ends at its end, so it starts with a complete record.
        if a.len() < 8 {
            assert(false);
        }
        let size = spec_u64_from_le_bytes(a.subrange(0, 8));
        if size > a.len() - 8 {
            assert(false);
        }
        let ab = a + b;
        assert(ab.subrange(0, 8) =~= a.subrange(0, 8));
        let a2 = a.subrange(8 + size, a.len() as int);
        assert(ab.subrange(8 + size, ab.len() as int) =~= a2 + b);
        lemma_scan_concat(a2, b, base + 8 + size);
        let span = RecordSpan { offset: (base + 8) as u64, size: size };
        assert(scan_from(a, base).0 == seq![span] + scan_from(a2, base + 8 + size).0);
        assert(seq![span] + (scan_from(a2, base + 8 + size).0 + scan_from(b, base + a.len()).0)
            =~= scan_from(a, base).0 + scan_from(b, base + a.len()).0);
    }
}

/// Write, then read back: appending the framed record `data` to a log
/// whose records are all complete adds exactly one record, whose span (its
/// data just after the current end and the length prefix) holds `data`.
pub proof fn lemma_append_reads_back(log: Seq<u8>, data: Seq<u8>)
    requires
        spec_scan(log).1 == log.len(),
        log.len() + 8 + data.len() <= u64::MAX,
    ensures
        ({
            let span = RecordSpan { offset: (log.len() + 8) as u64, size: data.len() as u64 };
            let new_log = log + spec_frame(data);
            &&& spec_scan(new_log) == (spec_scan(log).0.push(span), new_log.len() as int)
            &&& new_log.subrange(span.offset as int, span.offset + span.size) == data
        }),
{
    let span = RecordSpan { offset: (log.len() + 8) as u64, size: data.len() as u64 };
    let f = spec_frame(data);
    let empty: Seq<u8> = Seq::empty();
    lemma_scan_concat(log, f, 0);
    lemma_le_bytes_roundtrip(data.len() as u64);
    assert(seq![data].drop_first() =~= Seq::<Seq<u8>>::empty());
    assert(spec_frames(seq![data]) =~= f) by {
        assert(spec_frames(Seq::<Seq<u8>>::empty()) =~= Seq::<u8>::empty());
    }
    lemma_scan_frames(seq![data], empty, log.len() as int);
    assert(f + empty =~= f);
    assert(spec_frame_spans(seq![data], log.len() as int) =~= seq![span]) by {
        assert(spec_frame_spans(Seq::<Seq<u8>>::empty(), (log.len() + 8 + data.len()) as int) =~= Seq::<RecordSpan>::empty());
    }
    lemma_le_bytes_roundtrip(data.len() as u64);
    assert(spec_scan(log).0 + seq![span] =~= spec_scan(log).0.push(span));
    assert((log + f).subrange(span.offset as int, span.offset + span.size) =~= data);
}

/// Reading a log made of framed records, followed by bytes that hold no
/// complete record, gives back exactly the spans at which those records
/// were written, and stops where the incomplete bytes begin.
pub proof fn lemma_scan_frames(ds: Seq<Seq<u8>>, tail: Seq<u8>, base: int)
    requires
        forall|i: int| 0 <= i < ds.len() ==> #[trigger] ds[i].len() <= u64::MAX,
        0 <= base,
        base + spec_frames(ds).len() + tail.len() <= u64::MAX,
        incomplete_tail(tail),
    ensures
        scan_from(spec_frames(ds) + tail, base) == (spec_frame_spans(ds, base), base + spec_frames(ds).len()),
    decreases ds.len(),
{
    if ds.len() == 0 {
        assert(spec_frames(ds) + tail =~= tail);
    } else {
        let d = ds[0];
        let rest = ds.drop_first();
        let whole = spec_frames(ds) + tail;
        assert forall|i: int| 0 <= i < rest.len() implies #[trigger] rest[i].len() <= u64::MAX by {
            assert(rest[i] == ds[i + 1]);
        }
        lemma_le_bytes_roundtrip(d.len() as u64);
        assert(spec_frames(ds) == spec_frame(d) + spec_frames(rest));
        assert(whole =~= spec_u64_to_le_bytes(d.len() as u64) + (d + (spec_frames(rest) + tail)));
        assert(whole.subrange(0, 8) =~= spec_u64_to_le_bytes(d.len() as u64));
        assert(whole.subrange(8 + d.len() as int, whole.len() as int) =~= spec_frames(rest) + tail);
        lemma_scan_frames(rest, tail, base + 8 + d.len());
    }
}

} // verus!
