//! The storage engine's in-memory state: the offset index of every key, the
//! append position of the log, and the secondary indexes.
//!
//! The engine does no I/O. Each operation is a step from state to state:
//! the caller reads and writes the log file and hands the engine what it
//! read, and the engine decides what the log and indexes become.
use vstd::prelude::*;
use crate::oplog::{LogOp, IndexEntry, entry_at, spec_apply_op, spec_apply_sub_op, spec_apply_tx, spec_tx_value, spec_value_in_record, spec_prior_in_batch, prior_in_batch};
use crate::policy::FsyncPolicy;
use crate::record::{RecordSpan, LEN_PREFIX, scan_log, spec_scan, spec_frame, lemma_scan_offsets, lemma_append_reads_back};
use crate::secondary::{SecondaryIndexes, spec_update, spec_build, spec_forget, doc_views, bucket_or_empty, consistent, lemma_update_keeps_consistent};
use crate::strmap::{StrMap, string_views, opt_view};

verus! {

/// Whether the entry has expired at time `now` (nanoseconds since the Unix epoch).
pub open spec fn expired_at(e: IndexEntry, now: u128) -> bool {
    match e.expiry {
        Some(t) => now > t,
        None => false,
    }
}

/// Whether a read of `key` at time `now` evicts it: it is present and has expired.
pub open spec fn evicts(m: Map<Seq<char>, IndexEntry>, key: Seq<char>, now: u128) -> bool {
    m.get(key) matches Some(e) && expired_at(e, now)
}

/// Whether the entry is still live at time `now`, as compaction judges it.
pub open spec fn live_at(e: IndexEntry, now: u128) -> bool {
    match e.expiry {
        Some(t) => now < t,
        None => true,
    }
}

/// The key index after replaying the records `ops`, stored at `spans`, in order.
pub open spec fn spec_replay(
    m: Map<Seq<char>, IndexEntry>,
    ops: Seq<LogOp>,
    spans: Seq<RecordSpan>,
) -> Map<Seq<char>, IndexEntry>
    decreases ops.len(),
{
    if ops.len() == 0 || spans.len() == 0 {
        m
    } else {
        spec_apply_op(
            spec_replay(m, ops.drop_last(), spans.drop_last()),
            ops.last(),
            spans.last(),
        )
    }
}

/// The position of the first record that could not be decoded, or the
/// number of records when all were decoded.
pub open spec fn first_corrupt(d: Seq<Option<LogOp>>) -> nat
    decreases d.len(),
{
    if d.len() == 0 {
        0
    } else if d[0] is None {
        0
    } else {
        1 + first_corrupt(d.drop_first())
    }
}

/// Whether every record from the first undecodable one on is undecodable
/// too: the undecodable records, if any, all lie at the end of the log.
pub open spec fn corrupt_only_trailing(d: Seq<Option<LogOp>>) -> bool {
    forall|j: int| first_corrupt(d) <= j < d.len() ==> (#[trigger] d[j]) is None
}

/// The first `n` decoded operations.
pub open spec fn decoded_ops(d: Seq<Option<LogOp>>, n: int) -> Seq<LogOp> {
    Seq::new(n as nat, |j: int| d[j]->0)
}

/// The length a recovered log keeps: up to the first undecodable record,
/// or else up to the end of the last complete record.
pub open spec fn recovered_len(log: Seq<u8>, d: Seq<Option<LogOp>>) -> int {
    if first_corrupt(d) < d.len() {
        spec_scan(log).0[first_corrupt(d) as int].offset - LEN_PREFIX
    } else {
        spec_scan(log).1
    }
}

proof fn lemma_first_corrupt(d: Seq<Option<LogOp>>, i: int)
    requires
        0 <= i <= d.len(),
        forall|j: int| 0 <= j < i ==> (#[trigger] d[j]) is Some,
        i == d.len() || d[i] is None,
    ensures
        first_corrupt(d) == i,
    decreases d.len(),
{
    if i > 0 {
        assert forall|j: int| 0 <= j < i - 1 implies (#[trigger] d.drop_first()[j]) is Some by {
            assert(d.drop_first()[j] == d[j + 1]);
        }
        if i < d.len() {
            assert(d.drop_first()[i - 1] == d[i]);
        }
        assert(d[0] is Some);
        lemma_first_corrupt(d.drop_first(), i - 1);
    }
}

/// The secondary indexes after the operation `op` of a committed record is
/// applied, told the value `old` that its key held before.
pub open spec fn spec_committed_secondary(
    sec: Map<Seq<char>, Map<Seq<char>, Seq<Seq<char>>>>,
    index: Map<Seq<char>, IndexEntry>,
    op: LogOp,
    old: Option<Seq<char>>,
) -> Map<Seq<char>, Map<Seq<char>, Seq<Seq<char>>>> {
    match op {
        LogOp::Put { key, value, .. } => spec_update(sec, key@, old, Some(value@)),
        LogOp::Delete { key } => if index.contains_key(key@) {
            spec_update(sec, key@, old, None)
        } else {
            sec
        },
        LogOp::Transaction { .. } => sec,
    }
}

/// The key of a `Put` or `Delete`.
pub open spec fn op_key(op: LogOp) -> Option<Seq<char>> {
    match op {
        LogOp::Put { key, .. } => Some(key@),
        LogOp::Delete { key } => Some(key@),
        LogOp::Transaction { .. } => None,
    }
}

/// The keys of a list of (key, entry) pairs, as character sequences.
pub open spec fn pair_keys(v: Seq<(String, IndexEntry)>) -> Seq<Seq<char>> {
    Seq::new(v.len(), |i: int| v[i].0@)
}

/// The key index after applying the operations `ops` of a transaction
/// record at `span` one at a time, first to last, as a live commit does.
pub open spec fn spec_apply_each(
    m: Map<Seq<char>, IndexEntry>,
    ops: Seq<LogOp>,
    span: RecordSpan,
) -> Map<Seq<char>, IndexEntry>
    decreases ops.len(),
{
    if ops.len() == 0 {
        m
    } else {
        spec_apply_each(spec_apply_sub_op(m, ops[0], span), ops.drop_first(), span)
    }
}

proof fn lemma_apply_each_push(m: Map<Seq<char>, IndexEntry>, ops: Seq<LogOp>, op: LogOp, span: RecordSpan)
    ensures
        spec_apply_each(m, ops.push(op), span) == spec_apply_sub_op(spec_apply_each(m, ops, span), op, span),
    decreases ops.len(),
{
    if ops.len() == 0 {
        assert(ops.push(op).drop_first() =~= Seq::<LogOp>::empty());
        assert(ops.push(op)[0] == op);
        let m1 = spec_apply_sub_op(m, op, span);
        assert(spec_apply_each(m1, Seq::<LogOp>::empty(), span) == m1);
        assert(spec_apply_each(m, ops.push(op), span) == spec_apply_each(m1, ops.push(op).drop_first(), span));
        assert(spec_apply_each(m, ops, span) == m);
    } else {
        assert(ops.push(op).drop_first() =~= ops.drop_first().push(op));
        assert(ops.push(op)[0] == ops[0]);
        lemma_apply_each_push(spec_apply_sub_op(m, ops[0], span), ops.drop_first(), op, span);
    }
}

/// A committed transaction leaves the key index as replaying its record on
/// recovery does: applying its operations one by one as they are committed
/// gives the index that `spec_apply_op` gives for the whole record.
pub proof fn lemma_commit_matches_recovery(m: Map<Seq<char>, IndexEntry>, ops: Vec<LogOp>, span: RecordSpan)
    ensures
        spec_apply_each(m, ops@, span) == spec_apply_op(m, LogOp::Transaction { ops }, span),
{
    lemma_apply_each_matches_tx(m, ops@, span);
}

proof fn lemma_apply_each_matches_tx(m: Map<Seq<char>, IndexEntry>, ops: Seq<LogOp>, span: RecordSpan)
    ensures
        spec_apply_each(m, ops, span) == spec_apply_tx(m, ops, span),
    decreases ops.len(),
{
    if ops.len() > 0 {
        lemma_apply_each_matches_tx(m, ops.drop_last(), span);
        lemma_apply_each_push(m, ops.drop_last(), ops.last(), span);
        assert(ops.drop_last().push(ops.last()) =~= ops);
    }
}

/// Reopening a log gives back the index the engine had: when the index is
/// the replay of a log whose records are all complete, appending one more
/// record and applying its operation to the index as recovery applies it
/// leaves the index equal to the replay of the longer log, whose records
/// are again all complete. By induction, after any run of writes the
/// recovered index is the one the engine held.
pub proof fn lemma_append_keeps_replay(log: Seq<u8>, ops: Seq<LogOp>, data: Seq<u8>, op: LogOp)
    requires
        spec_scan(log).1 == log.len(),
        ops.len() == spec_scan(log).0.len(),
        log.len() + 8 + data.len() <= u64::MAX,
    ensures
        ({
            let span = RecordSpan { offset: (log.len() + 8) as u64, size: data.len() as u64 };
            let log2 = log + spec_frame(data);
            &&& spec_scan(log2).1 == log2.len()
            &&& ops.push(op).len() == spec_scan(log2).0.len()
            &&& spec_replay(Map::empty(), ops.push(op), spec_scan(log2).0)
                == spec_apply_op(spec_replay(Map::empty(), ops, spec_scan(log).0), op, span)
        }),
{
    let span = RecordSpan { offset: (log.len() + 8) as u64, size: data.len() as u64 };
    lemma_append_reads_back(log, data);
    let spans2 = spec_scan(log).0.push(span);
    assert(ops.push(op).drop_last() =~= ops);
    assert(spans2.drop_last() =~= spec_scan(log).0);
    assert(ops.push(op).last() == op);
    assert(spans2.last() == span);
}

/// A batch is equivalent to its writes done one by one: committing the
/// operations `ops` (no nested transactions) as one record at `span`, or
/// writing each as a record of its own at `spans[j]`, leaves every key the
/// same outcome. A key no operation touches keeps its entry; one whose last
/// operation is a `Delete` is absent either way; one whose last operation
/// puts `v` is present either way, with the same expiry, and both the batch
/// record and the key's own record give back `v`.
pub proof fn lemma_batch_matches_separate_writes(
    m: Map<Seq<char>, IndexEntry>,
    ops: Seq<LogOp>,
    span: RecordSpan,
    spans: Seq<RecordSpan>,
    k: Seq<char>,
)
    requires
        ops.len() == spans.len(),
        forall|j: int| 0 <= j < ops.len() ==> !((#[trigger] ops[j]) is Transaction),
    ensures
        ({
            let tx = spec_apply_tx(m, ops, span);
            let one = spec_replay(m, ops, spans);
            match spec_prior_in_batch(ops, k) {
                None => tx.get(k) == m.get(k) && one.get(k) == m.get(k),
                Some(None) => tx.get(k) is None && one.get(k) is None,
                Some(Some(v)) => {
                    &&& tx.contains_key(k) && one.contains_key(k)
                    &&& tx[k].expiry == one[k].expiry
                    &&& spec_tx_value(ops, k) == Some(v)
                    &&& exists|j: int| 0 <= j < ops.len() && one[k] == entry_at(spans[j], one[k].expiry)
                        && spec_value_in_record(#[trigger] ops[j], k) == Some(v)
                },
            }
        }),
    decreases ops.len(),
{
    if ops.len() > 0 {
        let rest = ops.drop_last();
        let srest = spans.drop_last();
        assert forall|j: int| 0 <= j < rest.len() implies !((#[trigger] rest[j]) is Transaction) by {
            assert(rest[j] == ops[j]);
        }
        lemma_batch_matches_separate_writes(m, rest, span, srest, k);
        let n = ops.len() - 1;
        assert(ops.last() == ops[n]);
        assert(spans.last() == spans[n]);
        let prev_one = spec_replay(m, rest, srest);
        match spec_prior_in_batch(rest, k) {
            Some(Some(v)) => {
                let j = choose|j: int| 0 <= j < rest.len() && prev_one[k] == entry_at(srest[j], prev_one[k].expiry)
                    && spec_value_in_record(#[trigger] rest[j], k) == Some(v);
                assert(rest[j] == ops[j] && srest[j] == spans[j]);
            },
            _ => {},
        }
        match ops.last() {
            LogOp::Put { key, value, expiry } => {
                if key@ == k {
                    assert(spec_value_in_record(ops[n], k) == Some(value@));
                }
            },
            _ => {},
        }
    }
}

/// The record `op` leaves `key` alone: it is no `Put` or `Delete` of it,
/// and, if a transaction, none of its operations is.
pub open spec fn leaves_key(op: LogOp, key: Seq<char>) -> bool {
    &&& op_key(op) != Some(key)
    &&& (op matches LogOp::Transaction { ops } ==> forall|i: int| 0 <= i < ops@.len() ==> op_key(#[trigger] ops@[i]) != Some(key))
}

/// Replaying records that all leave `key` alone leaves its entry as it was.
pub proof fn lemma_replay_untouched(m: Map<Seq<char>, IndexEntry>, ops: Seq<LogOp>, spans: Seq<RecordSpan>, key: Seq<char>)
    requires
        ops.len() == spans.len(),
        forall|i: int| 0 <= i < ops.len() ==> leaves_key(#[trigger] ops[i], key),
    ensures
        spec_replay(m, ops, spans).get(key) == m.get(key),
    decreases ops.len(),
{
    if ops.len() > 0 {
        let rest = ops.drop_last();
        assert forall|i: int| 0 <= i < rest.len() implies leaves_key(#[trigger] rest[i], key) by {
            assert(rest[i] == ops[i]);
        }
        lemma_replay_untouched(m, rest, spans.drop_last(), key);
        let prev = spec_replay(m, rest, spans.drop_last());
        let last = ops.last();
        assert(leaves_key(ops[ops.len() - 1], key));
        match last {
            LogOp::Transaction { ops: t } => {
                lemma_tx_untouched_key(prev, t@, spans.last(), key);
            },
            _ => {},
        }
    }
}

/// The last record to touch a key decides it on replay: after replaying
/// the records `ops` at `spans`, a key whose last `Put` or `Delete` is
/// `ops[j]` (no later record touches it) has the entry of that `Put`, at
/// its span and with its expiry, or none after that `Delete`.
pub proof fn lemma_replay_last_write(
    m: Map<Seq<char>, IndexEntry>,
    ops: Seq<LogOp>,
    spans: Seq<RecordSpan>,
    key: Seq<char>,
    j: int,
)
    requires
        ops.len() == spans.len(),
        0 <= j < ops.len(),
        op_key(ops[j]) == Some(key),
        forall|i: int| j < i < ops.len() ==> leaves_key(#[trigger] ops[i], key),
    ensures
        ops[j] matches LogOp::Put { expiry, .. } ==> spec_replay(m, ops, spans).get(key) == Some(entry_at(spans[j], expiry)),
        ops[j] is Delete ==> spec_replay(m, ops, spans).get(key) is None,
    decreases ops.len(),
{
    let n = ops.len() - 1;
    let rest = ops.drop_last();
    let srest = spans.drop_last();
    assert(ops.last() == ops[n]);
    assert(spans.last() == spans[n]);
    if j < n {
        assert(rest[j] == ops[j]);
        assert(srest[j] == spans[j]);
        assert forall|i: int| j < i < rest.len() implies leaves_key(#[trigger] rest[i], key) by {
            assert(rest[i] == ops[i]);
        }
        lemma_replay_last_write(m, rest, srest, key, j);
        let prev = spec_replay(m, rest, srest);
        assert(leaves_key(ops[n], key));
        match ops[n] {
            LogOp::Transaction { ops: t } => {
                lemma_tx_untouched_key(prev, t@, spans[n], key);
            },
            _ => {},
        }
    }
}

/// Every record before the first undecodable one was decoded, and the
/// first undecodable one lies within the records.
pub proof fn lemma_first_corrupt_facts(d: Seq<Option<LogOp>>)
    ensures
        first_corrupt(d) <= d.len(),
        forall|i: int| 0 <= i < first_corrupt(d) ==> (#[trigger] d[i]) is Some,
        first_corrupt(d) < d.len() ==> d[first_corrupt(d) as int] is None,
    decreases d.len(),
{
    if d.len() > 0 && d[0] is Some {
        lemma_first_corrupt_facts(d.drop_first());
        assert forall|i: int| 0 <= i < first_corrupt(d) implies (#[trigger] d[i]) is Some by {
            if i > 0 {
                assert(d[i] == d.drop_first()[i - 1]);
            }
        }
        if first_corrupt(d) < d.len() {
            assert(d[first_corrupt(d) as int] == d.drop_first()[first_corrupt(d) - 1]);
        }
    }
}

/// Recovery replays the decoded records unchanged: the operations it
/// replays are exactly the operations decoded from the log's records.
pub proof fn lemma_decoded_ops_unchanged(d: Seq<Option<LogOp>>, n: int)
    requires
        0 <= n <= first_corrupt(d),
    ensures
        decoded_ops(d, n).len() == n,
        forall|j: int| 0 <= j < n ==> Some(#[trigger] decoded_ops(d, n)[j]) == d[j],
{
    lemma_first_corrupt_facts(d);
    assert forall|j: int| 0 <= j < n implies Some(#[trigger] decoded_ops(d, n)[j]) == d[j] by {
        assert(d[j] is Some);
    }
}

/// The decoded record `r` leaves `key` alone.
pub open spec fn decoded_leaves(r: Option<LogOp>, key: Seq<char>) -> bool {
    match r {
        Some(op) => leaves_key(op, key),
        None => false,
    }
}

/// The decoded record `r` is a `Put` or `Delete` of `key`.
pub open spec fn decoded_writes(r: Option<LogOp>, key: Seq<char>) -> bool {
    match r {
        Some(op) => op_key(op) == Some(key),
        None => false,
    }
}

/// Recovery gives every key the entry its last write in the log gives it:
/// after recovering from `log` with the decoded records `d`, a key whose
/// last write among the replayed records is the `Put` `d[j]` points at that
/// record's span with that `Put`'s expiry (so a TTL survives a restart); a
/// key whose last write is a `Delete`, or that no replayed record touches,
/// is absent.
pub proof fn lemma_recover_last_write(log: Seq<u8>, d: Seq<Option<LogOp>>, key: Seq<char>, j: int)
    requires
        d.len() == spec_scan(log).0.len(),
    ensures
        ({
            let k = first_corrupt(d) as int;
            let spans = spec_scan(log).0;
            let idx = spec_replay(Map::empty(), decoded_ops(d, k), spans.take(k));
            &&& (forall|i: int| 0 <= i < k ==> decoded_leaves(#[trigger] d[i], key)) ==> idx.get(key) is None
            &&& (0 <= j < k && decoded_writes(d[j], key)
                && (forall|i: int| j < i < k ==> decoded_leaves(#[trigger] d[i], key))) ==> {
                &&& (d[j] matches Some(LogOp::Put { expiry, .. }) ==> idx.get(key) == Some(entry_at(spans[j], expiry)))
                &&& (d[j] matches Some(LogOp::Delete { .. }) ==> idx.get(key) is None)
            }
        }),
{
    let k = first_corrupt(d) as int;
    let spans = spec_scan(log).0;
    let ops = decoded_ops(d, k);
    let sp = spans.take(k);
    lemma_first_corrupt_facts(d);
    lemma_decoded_ops_unchanged(d, k);
    if forall|i: int| 0 <= i < k ==> decoded_leaves(#[trigger] d[i], key) {
        assert forall|i: int| 0 <= i < ops.len() implies leaves_key(#[trigger] ops[i], key) by {
            assert(Some(ops[i]) == d[i]);
            assert(decoded_leaves(d[i], key));
        }
        lemma_replay_untouched(Map::empty(), ops, sp, key);
    }
    if 0 <= j < k && decoded_writes(d[j], key) && (forall|i: int| j < i < k ==> decoded_leaves(#[trigger] d[i], key)) {
        assert(Some(ops[j]) == d[j]);
        assert(sp[j] == spans[j]);
        assert forall|i: int| j < i < ops.len() implies leaves_key(#[trigger] ops[i], key) by {
            assert(Some(ops[i]) == d[i]);
            assert(decoded_leaves(d[i], key));
        }
        lemma_replay_last_write(Map::empty(), ops, sp, key, j);
    }
}

/// A read after a write gives back what was written: once a `Put` of `key`
/// is applied, the index points `key` at the record's span (live until its
/// expiry, if any), and that record holds the value put.
pub proof fn lemma_put_then_get(
    m: Map<Seq<char>, IndexEntry>,
    key: String,
    value: String,
    expiry: Option<u128>,
    span: RecordSpan,
)
    ensures
        ({
            let op = LogOp::Put { key, value, expiry };
            &&& spec_apply_sub_op(m, op, span).get(key@) == Some(entry_at(span, expiry))
            &&& spec_apply_op(m, op, span).get(key@) == Some(entry_at(span, expiry))
            &&& spec_value_in_record(op, key@) == Some(value@)
        }),
{
}

/// A read after a delete finds nothing.
pub proof fn lemma_delete_then_get(m: Map<Seq<char>, IndexEntry>, key: String, span: RecordSpan)
    ensures
        spec_apply_sub_op(m, LogOp::Delete { key }, span).get(key@) is None,
        spec_apply_op(m, LogOp::Delete { key }, span).get(key@) is None,
{
}

/// An operation changes the index entry of its own key only.
pub proof fn lemma_other_keys_unchanged(m: Map<Seq<char>, IndexEntry>, op: LogOp, span: RecordSpan, k: Seq<char>)
    requires
        op_key(op) != Some(k),
    ensures
        spec_apply_sub_op(m, op, span).get(k) == m.get(k),
{
}

/// After a transaction with no operation on `key`, the key keeps its
/// earlier entry, and the transaction's record holds no value for it.
pub proof fn lemma_tx_untouched_key(m: Map<Seq<char>, IndexEntry>, ops: Seq<LogOp>, span: RecordSpan, key: Seq<char>)
    requires
        forall|j: int| 0 <= j < ops.len() ==> op_key(#[trigger] ops[j]) != Some(key),
    ensures
        spec_apply_tx(m, ops, span).get(key) == m.get(key),
        spec_tx_value(ops, key) is None,
    decreases ops.len(),
{
    if ops.len() > 0 {
        let rest = ops.drop_last();
        assert forall|j: int| 0 <= j < rest.len() implies op_key(#[trigger] rest[j]) != Some(key) by {
            assert(rest[j] == ops[j]);
        }
        lemma_tx_untouched_key(m, rest, span, key);
        assert(op_key(ops[ops.len() - 1]) != Some(key));
        lemma_other_keys_unchanged(spec_apply_tx(m, rest, span), ops.last(), span, key);
    }
}

/// After a transaction, the last of its operations on `key` decides the
/// key: a `Put` leaves it at the transaction's record, whose value for it
/// is that `Put`'s value; a `Delete` leaves it absent, with no value.
pub proof fn lemma_tx_last_write_wins(
    m: Map<Seq<char>, IndexEntry>,
    ops: Seq<LogOp>,
    span: RecordSpan,
    key: Seq<char>,
    i: int,
)
    requires
        0 <= i < ops.len(),
        op_key(ops[i]) == Some(key),
        forall|j: int| i < j < ops.len() ==> op_key(#[trigger] ops[j]) != Some(key),
    ensures
        ops[i] matches LogOp::Put { value, expiry, .. } ==> spec_apply_tx(m, ops, span).get(key) == Some(
            entry_at(span, expiry),
        ) && spec_tx_value(ops, key) == Some(value@),
        ops[i] is Delete ==> spec_apply_tx(m, ops, span).get(key) is None && spec_tx_value(ops, key) is None,
    decreases ops.len(),
{
    let rest = ops.drop_last();
    let n = rest.len() as int;
    assert(ops.last() == ops[n]);
    if i < n {
        assert(rest[i] == ops[i]);
        assert forall|j: int| i < j < rest.len() implies op_key(#[trigger] rest[j]) != Some(key) by {
            assert(rest[j] == ops[j]);
        }
        lemma_tx_last_write_wins(m, rest, span, key, i);
        assert(op_key(ops[n]) != Some(key));
        lemma_other_keys_unchanged(spec_apply_tx(m, rest, span), ops.last(), span, key);
    }
}

/// The documents after the operations `ops` of a batch, applied in order
/// to the documents `docs`: a `Put` sets its key's document, a `Delete`
/// removes its key; nested transactions are skipped.
pub open spec fn spec_docs_after(docs: Map<Seq<char>, Seq<char>>, ops: Seq<LogOp>) -> Map<Seq<char>, Seq<char>>
    decreases ops.len(),
{
    if ops.len() == 0 {
        docs
    } else {
        let d = spec_docs_after(docs, ops.drop_last());
        match ops.last() {
            LogOp::Put { key, value, .. } => d.insert(key@, value@),
            LogOp::Delete { key } => d.remove(key@),
            LogOp::Transaction { .. } => d,
        }
    }
}

/// The secondary indexes after the operations `ops` of a batch, each told
/// the document its key holds just before it.
pub open spec fn spec_batch_secondary(
    sec: Map<Seq<char>, Map<Seq<char>, Seq<Seq<char>>>>,
    docs: Map<Seq<char>, Seq<char>>,
    ops: Seq<LogOp>,
) -> Map<Seq<char>, Map<Seq<char>, Seq<Seq<char>>>>
    decreases ops.len(),
{
    if ops.len() == 0 {
        sec
    } else {
        let prev = spec_batch_secondary(sec, docs, ops.drop_last());
        let d = spec_docs_after(docs, ops.drop_last());
        match ops.last() {
            LogOp::Put { key, value, .. } => spec_update(prev, key@, d.get(key@), Some(value@)),
            LogOp::Delete { key } => spec_update(prev, key@, d.get(key@), None),
            LogOp::Transaction { .. } => prev,
        }
    }
}

/// The value a key holds just before an operation of a batch is what the
/// earlier operations of the batch left it, if any of them is on the key,
/// and otherwise its stored document.
pub proof fn lemma_prior_is_current_doc(docs: Map<Seq<char>, Seq<char>>, ops: Seq<LogOp>, key: Seq<char>)
    ensures
        match spec_prior_in_batch(ops, key) {
            Some(v) => spec_docs_after(docs, ops).get(key) == v,
            None => spec_docs_after(docs, ops).get(key) == docs.get(key),
        },
    decreases ops.len(),
{
    if ops.len() > 0 {
        lemma_prior_is_current_doc(docs, ops.drop_last(), key);
    }
}

/// Secondary indexes are maintained live through a batch: when each
/// operation is told the document its key holds just before it, indexes
/// that were exact for the documents before the batch are exact for the
/// documents after it.
pub proof fn lemma_batch_keeps_consistent(
    sec: Map<Seq<char>, Map<Seq<char>, Seq<Seq<char>>>>,
    docs: Map<Seq<char>, Seq<char>>,
    ops: Seq<LogOp>,
)
    requires
        consistent(sec, docs),
    ensures
        consistent(spec_batch_secondary(sec, docs, ops), spec_docs_after(docs, ops)),
    decreases ops.len(),
{
    if ops.len() > 0 {
        let rest = ops.drop_last();
        lemma_batch_keeps_consistent(sec, docs, rest);
        let prev = spec_batch_secondary(sec, docs, rest);
        let d = spec_docs_after(docs, rest);
        match ops.last() {
            LogOp::Put { key, value, .. } => {
                lemma_update_keeps_consistent(prev, d, key@, Some(value@));
            },
            LogOp::Delete { key } => {
                lemma_update_keeps_consistent(prev, d, key@, None);
            },
            LogOp::Transaction { .. } => {},
        }
    }
}

/// A write of one record changes the number of keys as expected: a `Put`
/// adds one exactly when its key was absent, a `Delete` removes one exactly
/// when its key was present.
pub proof fn lemma_write_counts(m: Map<Seq<char>, IndexEntry>, op: LogOp, span: RecordSpan)
    requires
        m.dom().finite(),
    ensures
        op matches LogOp::Put { key, .. } ==> spec_apply_op(m, op, span).len()
            == m.len() + (if m.contains_key(key@) { 0int } else { 1int }),
        op matches LogOp::Delete { key } ==> spec_apply_op(m, op, span).len()
            == m.len() - (if m.contains_key(key@) { 1int } else { 0int }),
{
    match op {
        LogOp::Put { key, expiry, .. } => {
            assert(spec_apply_op(m, op, span).dom() =~= m.dom().insert(key@));
        },
        LogOp::Delete { key } => {
            assert(spec_apply_op(m, op, span).dom() =~= m.dom().remove(key@));
        },
        LogOp::Transaction { .. } => {},
    }
}

/// One committed write keeps the secondary indexes exact: when they index
/// the documents `docs` exactly and the write is told its key's current
/// document (and a key with a document is in the key index), they index
/// the documents after the write exactly.
pub proof fn lemma_committed_keeps_consistent(
    sec: Map<Seq<char>, Map<Seq<char>, Seq<Seq<char>>>>,
    index: Map<Seq<char>, IndexEntry>,
    docs: Map<Seq<char>, Seq<char>>,
    op: LogOp,
    old: Option<Seq<char>>,
)
    requires
        consistent(sec, docs),
        op_key(op) matches Some(k) ==> old == docs.get(k) && (index.contains_key(k) || !docs.contains_key(k)),
    ensures
        consistent(spec_committed_secondary(sec, index, op, old), spec_docs_after(docs, seq![op])),
{
    let s = seq![op];
    assert(s.drop_last() =~= Seq::<LogOp>::empty());
    assert(s.last() == op);
    assert(spec_docs_after(docs, s.drop_last()) == docs);
    match op {
        LogOp::Put { key, value, .. } => {
            assert(spec_docs_after(docs, s) == docs.insert(key@, value@));
            lemma_update_keeps_consistent(sec, docs, key@, Some(value@));
        },
        LogOp::Delete { key } => {
            assert(spec_docs_after(docs, s) == docs.remove(key@));
            if index.contains_key(key@) {
                lemma_update_keeps_consistent(sec, docs, key@, None);
            } else {
                assert(docs.remove(key@) =~= docs);
            }
        },
        LogOp::Transaction { .. } => {},
    }
}

/// The record to log for a delete of `key`, told the value the key holds
/// (read from the log): a `Delete` of the key when it holds one; nothing
/// when it holds none, so that deleting an absent key writes nothing.
pub fn delete_op(key: &str, old_value: Option<&str>) -> (r: Option<LogOp>)
    ensures
        r is Some <==> old_value is Some,
        r matches Some(op) ==> op matches LogOp::Delete { key: k } && k@ == key@,
{
    match old_value {
        Some(_) => Some(LogOp::Delete { key: String::from_str(key) }),
        None => None,
    }
}

/// Where to find the value a key held just before an operation of a batch.
pub enum PriorValue {
    /// An earlier operation of the same batch left the key this value
    /// (none: it deleted the key).
    InBatch(Option<String>),
    /// No earlier operation of the batch is on the key: its value is the one
    /// stored at this entry (none: the key is absent).
    Stored(Option<IndexEntry>),
}

/// Core key-value state: the offset index, the log's append position and
/// the secondary indexes. Values are not held here; they stay in the log.
pub struct StorageEngine {
    index: StrMap<IndexEntry>,
    write_offset: u64,
    secondary: SecondaryIndexes,
    fsync_policy: FsyncPolicy,
}

impl StorageEngine {
    pub closed spec fn wf(self) -> bool {
        self.index.wf() && self.secondary.wf()
    }

    /// Key -> where its current value is stored.
    pub closed spec fn index_view(self) -> Map<Seq<char>, IndexEntry> {
        self.index.view()
    }

    /// The position at which the next record will be appended.
    pub closed spec fn offset_view(self) -> u64 {
        self.write_offset
    }

    /// Field -> (JSON text of a value -> keys).
    pub closed spec fn secondary_view(self) -> Map<Seq<char>, Map<Seq<char>, Seq<Seq<char>>>> {
        self.secondary.view()
    }

    pub closed spec fn policy_view(self) -> FsyncPolicy {
        self.fsync_policy
    }

    /// An engine over an empty log.
    pub fn new(fsync_policy: FsyncPolicy) -> (e: Self)
        ensures
            e.wf(),
            e.index_view() == Map::<Seq<char>, IndexEntry>::empty(),
            e.offset_view() == 0,
            e.secondary_view() == Map::<Seq<char>, Map<Seq<char>, Seq<Seq<char>>>>::empty(),
            e.policy_view() == fsync_policy,
    {
        StorageEngine {
            index: StrMap::new(),
            write_offset: 0,
            secondary: SecondaryIndexes::new(),
            fsync_policy,
        }
    }

    /// Rebuilds the engine from the contents of a log: `decoded[i]` is the
    /// operation decoded from the i-th complete record of `log`, or none if
    /// that record could not be decoded.
    ///
    /// Undecodable records at the end of the log are skipped: the engine
    /// replays the records before the first of them. The second result is
    /// the length the log must be cut to before anything is appended (the
    /// start of the first skipped record, or of an incomplete last record),
    /// and appends continue there. An undecodable record followed by a
    /// decodable one is an error, at the position of its length prefix.
    pub fn recover(fsync_policy: FsyncPolicy, log: &[u8], decoded: &Vec<Option<LogOp>>) -> (r: Result<(Self, u64), u64>)
        requires
            log@.len() <= u64::MAX,
            decoded@.len() == spec_scan(log@).0.len(),
        ensures
            match r {
                Ok((e, keep)) => {
                    &&& corrupt_only_trailing(decoded@)
                    &&& e.wf()
                    &&& e.index_view() == spec_replay(
                        Map::empty(),
                        decoded_ops(decoded@, first_corrupt(decoded@) as int),
                        spec_scan(log@).0.take(first_corrupt(decoded@) as int),
                    )
                    &&& keep == recovered_len(log@, decoded@)
                    &&& e.offset_view() == keep
                    &&& e.secondary_view() == Map::<Seq<char>, Map<Seq<char>, Seq<Seq<char>>>>::empty()
                    &&& e.policy_view() == fsync_policy
                },
                Err(pos) => {
                    &&& !corrupt_only_trailing(decoded@)
                    &&& pos == spec_scan(log@).0[first_corrupt(decoded@) as int].offset - LEN_PREFIX
                },
            },
    {
        let scan = scan_log(log);
        proof {
            lemma_scan_offsets(log@);
        }
        let mut e = StorageEngine::new(fsync_policy);
        let n = decoded.len();
        let mut i: usize = 0;
        while i < n && decoded[i].is_some()
            invariant
                n == decoded@.len(),
                n == scan.records@.len(),
                i <= n,
                forall|j: int| 0 <= j < i ==> (#[trigger] decoded@[j]) is Some,
                e.wf(),
                e.index_view() == spec_replay(Map::empty(), decoded_ops(decoded@, i as int), scan.records@.take(i as int)),
                e.offset_view() == 0,
                e.secondary_view() == Map::<Seq<char>, Map<Seq<char>, Seq<Seq<char>>>>::empty(),
                e.policy_view() == fsync_policy,
            decreases n - i,
        {
            match &decoded[i] {
                Some(op) => {
                    e.apply_op_to_index(op, scan.records[i]);
                    proof {
                        let o = decoded_ops(decoded@, i + 1);
                        let sp = scan.records@.take(i + 1);
                        assert(o.drop_last() =~= decoded_ops(decoded@, i as int));
                        assert(sp.drop_last() =~= scan.records@.take(i as int));
                        assert(o.last() == *op);
                        assert(sp.last() == scan.records@[i as int]);
                    }
                },
                None => {},
            }
            i = i + 1;
        }
        let k = i;
        proof {
            lemma_first_corrupt(decoded@, k as int);
        }
        let mut j = k;
        while j < n
            invariant
                n == decoded@.len(),
                k <= j <= n,
                k == first_corrupt(decoded@),
                n == scan.records@.len(),
                scan.records@ == spec_scan(log@).0,
                forall|t: int| 0 <= t < n ==> #[trigger] scan.records@[t].offset >= LEN_PREFIX,
                forall|t: int| k <= t < j ==> (#[trigger] decoded@[t]) is None,
            decreases n - j,
        {
            if decoded[j].is_some() {
                return Err(scan.records[k].offset - LEN_PREFIX);
            }
            j = j + 1;
        }
        let keep = if k < n {
            scan.records[k].offset - LEN_PREFIX
        } else {
            scan.end
        };
        e.write_offset = keep;
        Ok((e, keep))
    }

    /// Applies an operation read from the log at `span` to the key index:
    /// a `Put` points its key at `span`, a `Delete` removes its key, and a
    /// transaction applies its operations in order (nested transactions are skipped).
    pub fn apply_op_to_index(&mut self, op: &LogOp, span: RecordSpan)
        requires
            old(self).wf(),
        ensures
            final(self).wf(),
            final(self).index_view() == spec_apply_op(old(self).index_view(), *op, span),
            final(self).offset_view() == old(self).offset_view(),
            final(self).secondary_view() == old(self).secondary_view(),
            final(self).policy_view() == old(self).policy_view(),
    {
        match op {
            LogOp::Put { key, expiry, .. } => {
                self.index.insert(key.clone(), IndexEntry { offset: span.offset, size: span.size, expiry: *expiry });
            },
            LogOp::Delete { key } => {
                let _ = self.index.remove(key.as_str());
            },
            LogOp::Transaction { ops } => {
                let n = ops.len();
                let mut i: usize = 0;
                let ghost start = self.index_view();
                while i < n
                    invariant
                        n == ops@.len(),
                        i <= n,
                        self.wf(),
                        self.index_view() == spec_apply_tx(start, ops@.take(i as int), span),
                        self.offset_view() == old(self).offset_view(),
                        self.secondary_view() == old(self).secondary_view(),
                        self.policy_view() == old(self).policy_view(),
                    decreases n - i,
                {
                    proof {
                        let o = ops@.take(i + 1);
                        assert(o.drop_last() =~= ops@.take(i as int));
                        assert(o.last() == ops@[i as int]);
                    }
                    match &ops[i] {
                        LogOp::Put { key, expiry, .. } => {
                            self.index.insert(
                                key.clone(),
                                IndexEntry { offset: span.offset, size: span.size, expiry: *expiry },
                            );
                        },
                        LogOp::Delete { key } => {
                            let _ = self.index.remove(key.as_str());
                        },
                        LogOp::Transaction { .. } => {},
                    }
                    i = i + 1;
                }
                assert(ops@.take(n as int) =~= ops@);
            },
        }
    }

    /// Where the current value of `key` is stored, if it has one.
    pub fn lookup(&self, key: &str) -> (r: Option<IndexEntry>)
        requires
            self.wf(),
        ensures
            r == self.index_view().get(key@),
    {
        match self.index.get(key) {
            Some(e) => Some(*e),
            None => None,
        }
    }

    /// Where to read the value of `key` at time `now` (nanoseconds since the
    /// Unix epoch): none if the key is absent or has expired. An expired key
    /// is evicted on this read: it leaves the key index and every bucket of
    /// the secondary indexes.
    pub fn get(&mut self, key: &str, now: u128) -> (r: Option<IndexEntry>)
        requires
            old(self).wf(),
        ensures
            final(self).wf(),
            r == (match old(self).index_view().get(key@) {
                Some(e) => if expired_at(e, now) { None } else { Some(e) },
                None => None,
            }),
            final(self).index_view() == (if evicts(old(self).index_view(), key@, now) {
                old(self).index_view().remove(key@)
            } else {
                old(self).index_view()
            }),
            final(self).secondary_view() == (if evicts(old(self).index_view(), key@, now) {
                spec_forget(old(self).secondary_view(), key@)
            } else {
                old(self).secondary_view()
            }),
            final(self).offset_view() == old(self).offset_view(),
            final(self).policy_view() == old(self).policy_view(),
    {
        let found = match self.index.get(key) {
            Some(e) => Some(*e),
            None => None,
        };
        match found {
            Some(e) => {
                let expired = match e.expiry {
                    Some(t) => now > t,
                    None => false,
                };
                if expired {
                    let _ = self.index.remove(key);
                    self.secondary.forget(key);
                    None
                } else {
                    Some(e)
                }
            },
            None => None,
        }
    }

    /// Reserves the place of a record of `size` bytes at the end of the log,
    /// after the caller has written it there, and returns where its data lies.
    pub fn record_append(&mut self, size: u64) -> (span: RecordSpan)
        requires
            old(self).offset_view() + LEN_PREFIX + size <= u64::MAX,
        ensures
            span == (RecordSpan { offset: (old(self).offset_view() + LEN_PREFIX) as u64, size }),
            final(self).offset_view() == old(self).offset_view() + LEN_PREFIX + size,
            final(self).index_view() == old(self).index_view(),
            final(self).secondary_view() == old(self).secondary_view(),
            final(self).policy_view() == old(self).policy_view(),
            final(self).wf() == old(self).wf(),
    {
        let offset = self.write_offset + LEN_PREFIX;
        self.write_offset = offset + size;
        RecordSpan { offset, size }
    }

    /// Replaces the key index and the append position.
    pub(crate) fn replace_index(&mut self, index: StrMap<IndexEntry>, offset: u64)
        requires
            old(self).wf(),
            index.wf(),
        ensures
            final(self).wf(),
            final(self).index_view() == index.view(),
            final(self).offset_view() == offset,
            final(self).secondary_view() == old(self).secondary_view(),
            final(self).policy_view() == old(self).policy_view(),
    {
        self.index = index;
        self.write_offset = offset;
    }

    /// The position at which the next record will be appended.
    pub fn write_offset(&self) -> (o: u64)
        ensures
            o == self.offset_view(),
    {
        self.write_offset
    }

    /// The durability policy for appends.
    pub fn fsync_policy(&self) -> (p: FsyncPolicy)
        ensures
            p == self.policy_view(),
    {
        self.fsync_policy
    }

    /// The entry whose stored value must be read before `op` is applied:
    /// the current entry of the key of a `Put` or `Delete`.
    pub fn pending_read(&self, op: &LogOp) -> (r: Option<IndexEntry>)
        requires
            self.wf(),
        ensures
            r == (match op_key(*op) {
                Some(k) => self.index_view().get(k),
                None => None,
            }),
    {
        match op {
            LogOp::Put { key, .. } => self.lookup(key.as_str()),
            LogOp::Delete { key } => self.lookup(key.as_str()),
            LogOp::Transaction { .. } => None,
        }
    }

    /// Where the value of the key of the i-th operation of the batch `ops`
    /// is found just before that operation: in the batch itself, when an
    /// earlier operation of it is on the key, and otherwise at the key's
    /// current entry.
    pub fn prior_value(&self, ops: &Vec<LogOp>, i: usize) -> (r: PriorValue)
        requires
            self.wf(),
            i < ops@.len(),
        ensures
            match op_key(ops@[i as int]) {
                Some(k) => match spec_prior_in_batch(ops@.take(i as int), k) {
                    Some(v) => r matches PriorValue::InBatch(x) && opt_view(x) == v,
                    None => r == PriorValue::Stored(self.index_view().get(k)),
                },
                None => r == PriorValue::Stored(None),
            },
    {
        let key = match &ops[i] {
            LogOp::Put { key, .. } => key,
            LogOp::Delete { key } => key,
            LogOp::Transaction { .. } => {
                return PriorValue::Stored(None);
            },
        };
        match prior_in_batch(ops, i, key.as_str()) {
            Some(v) => PriorValue::InBatch(v),
            None => PriorValue::Stored(self.lookup(key.as_str())),
        }
    }

    /// Applies an operation of a record just appended at `span`, told the
    /// value `old_value` its key held before (read from the log). A `Put`
    /// points its key at `span` and moves it in the secondary indexes; a
    /// `Delete` of a present key removes it from both; nested transactions
    /// are skipped.
    pub fn apply_committed_op(&mut self, op: &LogOp, span: RecordSpan, old_value: Option<&str>)
        requires
            old(self).wf(),
        ensures
            final(self).wf(),
            final(self).index_view() == spec_apply_sub_op(old(self).index_view(), *op, span),
            final(self).secondary_view() == spec_committed_secondary(
                old(self).secondary_view(),
                old(self).index_view(),
                *op,
                match old_value { Some(s) => Some(s@), None => None },
            ),
            final(self).offset_view() == old(self).offset_view(),
            final(self).policy_view() == old(self).policy_view(),
    {
        match op {
            LogOp::Put { key, value, expiry } => {
                self.index.insert(key.clone(), IndexEntry { offset: span.offset, size: span.size, expiry: *expiry });
                self.secondary.update(key.as_str(), old_value, Some(value.as_str()));
            },
            LogOp::Delete { key } => {
                if let Some(_) = self.index.remove(key.as_str()) {
                    self.secondary.update(key.as_str(), old_value, None);
                }
            },
            LogOp::Transaction { .. } => {},
        }
    }

    /// Every key with the entry of its current value.
    pub fn entries(&self) -> (es: Vec<(String, IndexEntry)>)
        requires
            self.wf(),
        ensures
            ({
                let ks = pair_keys(es@);
                &&& ks.no_duplicates()
                &&& ks.to_set() == self.index_view().dom()
                &&& forall|i: int| 0 <= i < es@.len() ==> #[trigger] self.index_view()[es@[i].0@] == es@[i].1
            }),
    {
        let keys = self.index.keys();
        let mut es: Vec<(String, IndexEntry)> = Vec::new();
        let n = keys.len();
        let mut i: usize = 0;
        while i < n
            invariant
                n == keys@.len(),
                i <= n,
                self.wf(),
                string_views(keys@).to_set() == self.index_view().dom(),
                es@.len() == i,
                forall|j: int| 0 <= j < i ==> #[trigger] es@[j].0@ == keys@[j]@,
                forall|j: int| 0 <= j < i ==> #[trigger] self.index_view()[es@[j].0@] == es@[j].1,
            decreases n - i,
        {
            assert(string_views(keys@)[i as int] == keys@[i as int]@);
            assert(string_views(keys@).to_set().contains(keys@[i as int]@));
            let e = match self.index.get(keys[i].as_str()) {
                Some(e) => *e,
                None => {
                    assert(false);
                    IndexEntry { offset: 0, size: 0, expiry: None }
                },
            };
            es.push((keys[i].clone(), e));
            i = i + 1;
        }
        assert(pair_keys(es@) =~= string_views(keys@));
        es
    }

    /// Builds the secondary index of `field` from `docs`, the (key, value)
    /// pairs read from the log, replacing any earlier index of that field.
    pub fn create_index(&mut self, field: &str, docs: &Vec<(String, String)>)
        requires
            old(self).wf(),
        ensures
            final(self).wf(),
            final(self).secondary_view() == old(self).secondary_view().insert(
                field@,
                spec_build(field@, doc_views(docs@)),
            ),
            final(self).index_view() == old(self).index_view(),
            final(self).offset_view() == old(self).offset_view(),
            final(self).policy_view() == old(self).policy_view(),
    {
        self.secondary.create_index(field, docs);
    }

    /// All keys whose value has the JSON text `value` at `field`, by the
    /// secondary index of `field`; none if there is no such index.
    pub fn get_by_index(&self, field: &str, value: &str) -> (keys: Vec<String>)
        requires
            self.wf(),
        ensures
            string_views(keys@) == (if self.secondary_view().contains_key(field@) {
                bucket_or_empty(self.secondary_view()[field@], value@)
            } else {
                Seq::empty()
            }),
    {
        self.secondary.get_by_index(field, value)
    }

    /// All keys in the index, each once.
    pub fn keys(&self) -> (ks: Vec<String>)
        requires
            self.wf(),
        ensures
            string_views(ks@).no_duplicates(),
            string_views(ks@).to_set() == self.index_view().dom(),
            ks@.len() == self.index_view().len(),
    {
        self.index.keys()
    }

    /// The number of keys in the index.
    pub fn len(&self) -> (n: usize)
        requires
            self.wf(),
        ensures
            n == self.index_view().len(),
    {
        self.index.len()
    }

    /// The entries that compaction keeps at time `now`: those without an
    /// expiry or whose expiry lies after `now`.
    pub fn live_entries(&self, now: u128) -> (es: Vec<(String, IndexEntry)>)
        requires
            self.wf(),
        ensures
            ({
                let ks = pair_keys(es@);
                &&& ks.no_duplicates()
                &&& forall|k: Seq<char>| #[trigger] ks.contains(k) <==> (self.index_view().contains_key(k)
                    && live_at(self.index_view()[k], now))
                &&& forall|i: int| 0 <= i < es@.len() ==> #[trigger] self.index_view()[es@[i].0@] == es@[i].1
            }),
    {
        let all = self.entries();
        let ghost all_keys = pair_keys(all@);
        let mut es: Vec<(String, IndexEntry)> = Vec::new();
        let n = all.len();
        let mut i: usize = 0;
        while i < n
            invariant
                n == all@.len(),
                i <= n,
                all_keys == pair_keys(all@),
                all_keys.no_duplicates(),
                all_keys.to_set() == self.index_view().dom(),
                forall|j: int| 0 <= j < n ==> #[trigger] self.index_view()[all@[j].0@] == all@[j].1,
                pair_keys(es@).no_duplicates(),
                forall|k: Seq<char>| #[trigger] pair_keys(es@).contains(k) <==> (
                    exists|j: int| 0 <= j < i && all_keys[j] == k && live_at(all@[j].1, now)),
                forall|j: int| 0 <= j < es@.len() ==> #[trigger] self.index_view()[es@[j].0@] == es@[j].1,
            decreases n - i,
        {
            let e = all[i].1;
            let keep = match e.expiry {
                Some(t) => now < t,
                None => true,
            };
            let ghost old_es = es@;
            let ghost old_ks = pair_keys(es@);
            if keep {
                es.push((all[i].0.clone(), e));
                proof {
                    let ks = pair_keys(es@);
                    assert(ks =~= old_ks.push(all_keys[i as int]));
                    assert(!old_ks.contains(all_keys[i as int])) by {
                        if old_ks.contains(all_keys[i as int]) {
                            let j = choose|j: int| 0 <= j < i && all_keys[j] == all_keys[i as int] && live_at(all@[j].1, now);
                        }
                    }
                    assert forall|a: int, b: int| 0 <= a < ks.len() && 0 <= b < ks.len() && a != b
                        implies ks[a] != ks[b] by {
                        if a < old_ks.len() && b < old_ks.len() {
                            assert(old_ks[a] != old_ks[b]);
                        } else if a == old_ks.len() {
                            assert(ks[b] == old_ks[b]);
                            assert(old_ks.contains(ks[b]));
                        } else {
                            assert(ks[a] == old_ks[a]);
                            assert(old_ks.contains(ks[a]));
                        }
                    }
                    assert forall|k: Seq<char>| ks.contains(k) <==> (
                        exists|j: int| 0 <= j < i + 1 && all_keys[j] == k && live_at(all@[j].1, now)) by {
                        if ks.contains(k) {
                            let a = choose|a: int| 0 <= a < ks.len() && ks[a] == k;
                            if a < old_ks.len() {
                                assert(old_ks[a] == k);
                                assert(old_ks.contains(k));
                            }
                        }
                        if exists|j: int| 0 <= j < i + 1 && all_keys[j] == k && live_at(all@[j].1, now) {
                            let j = choose|j: int| 0 <= j < i + 1 && all_keys[j] == k && live_at(all@[j].1, now);
                            if j < i {
                                assert(old_ks.contains(k));
                                let a = choose|a: int| 0 <= a < old_ks.len() && old_ks[a] == k;
                                assert(ks[a] == k);
                            } else {
                                assert(ks[old_ks.len() as int] == k);
                            }
                        }
                    }
                }
            } else {
                proof {
                    assert forall|k: Seq<char>| old_ks.contains(k) <==> (
                        exists|j: int| 0 <= j < i + 1 && all_keys[j] == k && live_at(all@[j].1, now)) by {
                        if exists|j: int| 0 <= j < i + 1 && all_keys[j] == k && live_at(all@[j].1, now) {
                            let j = choose|j: int| 0 <= j < i + 1 && all_keys[j] == k && live_at(all@[j].1, now);
                            if j == i {
                                assert(all_keys[j] == all@[j].0@);
                            }
                        }
                    }
                }
            }
            i = i + 1;
        }
        proof {
            let ks = pair_keys(es@);
            assert forall|k: Seq<char>| ks.contains(k) <==> (self.index_view().contains_key(k)
                && live_at(self.index_view()[k], now)) by {
                if self.index_view().contains_key(k) {
                    assert(all_keys.to_set().contains(k));
                    let j = choose|j: int| 0 <= j < all_keys.len() && all_keys[j] == k;
                    assert(self.index_view()[all@[j].0@] == all@[j].1);
                }
                if exists|j: int| 0 <= j < n && all_keys[j] == k && live_at(all@[j].1, now) {
                    let j = choose|j: int| 0 <= j < n && all_keys[j] == k && live_at(all@[j].1, now);
                    assert(all_keys.to_set().contains(k));
                    assert(self.index_view()[all@[j].0@] == all@[j].1);
                }
            }
        }
        es
    }
}

} // verus!
