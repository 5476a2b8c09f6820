//! Operations stored in the log, the index entries they produce, and the
//! transaction builder.
use vstd::prelude::*;
use crate::record::RecordSpan;
use crate::strmap::{str_equal, opt_view};

verus! {

/// An operation as stored in the log.
///
/// Values are JSON documents held as their compact JSON text. Expiry times
/// are nanoseconds since the Unix epoch.
#[derive(Debug, PartialEq)]
pub enum LogOp {
    Put { key: String, value: String, expiry: Option<u128> },
    Delete { key: String },
    /// A group of operations that must be applied together.
    Transaction { ops: Vec<LogOp> },
}

/// Where the current value of a key is stored: the record that holds it,
/// and when the key expires.
#[derive(Debug, Clone, Copy, PartialEq, Eq, Structural)]
pub struct IndexEntry {
    /// Byte offset in the log where the record's data begins (after the length prefix).
    pub offset: u64,
    /// Size of the record's data.
    pub size: u64,
    pub expiry: Option<u128>,
}

/// The index entry that a record at `span` gives a key with `expiry`.
pub open spec fn entry_at(span: RecordSpan, expiry: Option<u128>) -> IndexEntry {
    IndexEntry { offset: span.offset, size: span.size, expiry }
}

/// The key index after one operation inside a transaction record at `span`.
/// Nested transactions are ignored.
pub open spec fn spec_apply_sub_op(
    m: Map<Seq<char>, IndexEntry>,
    op: LogOp,
    span: RecordSpan,
) -> Map<Seq<char>, IndexEntry> {
    match op {
        LogOp::Put { key, expiry, .. } => m.insert(key@, entry_at(span, expiry)),
        LogOp::Delete { key } => m.remove(key@),
        LogOp::Transaction { .. } => m,
    }
}

/// The key index after the first operations `ops` of a transaction record at `span`.
pub open spec fn spec_apply_tx(
    m: Map<Seq<char>, IndexEntry>,
    ops: Seq<LogOp>,
    span: RecordSpan,
) -> Map<Seq<char>, IndexEntry>
    decreases ops.len(),
{
    if ops.len() == 0 {
        m
    } else {
        spec_apply_sub_op(spec_apply_tx(m, ops.drop_last(), span), ops.last(), span)
    }
}

/// The key index after the operation `op`, stored in the record at `span`.
pub open spec fn spec_apply_op(
    m: Map<Seq<char>, IndexEntry>,
    op: LogOp,
    span: RecordSpan,
) -> Map<Seq<char>, IndexEntry> {
    match op {
        LogOp::Put { key, expiry, .. } => m.insert(key@, entry_at(span, expiry)),
        LogOp::Delete { key } => m.remove(key@),
        LogOp::Transaction { ops } => spec_apply_tx(m, ops@, span),
    }
}

/// The value that the last operation on `key` among `ops` leaves it with:
/// the value of the last `Put`, or none if a `Delete` comes later or neither occurs.
pub open spec fn spec_tx_value(ops: Seq<LogOp>, key: Seq<char>) -> Option<Seq<char>>
    decreases ops.len(),
{
    if ops.len() == 0 {
        None
    } else {
        match ops.last() {
            LogOp::Put { key: k, value, .. } => if k@ == key {
                Some(value@)
            } else {
                spec_tx_value(ops.drop_last(), key)
            },
            LogOp::Delete { key: k } => if k@ == key {
                None
            } else {
                spec_tx_value(ops.drop_last(), key)
            },
            LogOp::Transaction { .. } => spec_tx_value(ops.drop_last(), key),
        }
    }
}

/// The value a record holds for `key`: a `Put` record holds its value, a
/// transaction the value its last operation on `key` leaves, a `Delete` none.
pub open spec fn spec_value_in_record(op: LogOp, key: Seq<char>) -> Option<Seq<char>> {
    match op {
        LogOp::Put { value, .. } => Some(value@),
        LogOp::Delete { .. } => None,
        LogOp::Transaction { ops } => spec_tx_value(ops@, key),
    }
}

/// The value that the record `op`, read back from the log, holds for `key`.
pub fn value_in_record(op: &LogOp, key: &str) -> (r: Option<String>)
    ensures
        opt_view(r) == spec_value_in_record(*op, key@),
{
    match op {
        LogOp::Put { value, .. } => Some(value.clone()),
        LogOp::Delete { .. } => None,
        LogOp::Transaction { ops } => {
            let mut i = ops.len();
            assert(ops@.take(i as int) =~= ops@);
            while i > 0
                invariant
                    i <= ops@.len(),
                    spec_tx_value(ops@.take(i as int), key@) == spec_tx_value(ops@, key@),
                    spec_value_in_record(*op, key@) == spec_tx_value(ops@, key@),
                decreases i,
            {
                let ghost pre = ops@.take(i as int);
                assert(pre.drop_last() =~= ops@.take(i - 1));
                assert(pre.last() == ops@[i - 1]);
                match &ops[i - 1] {
                    LogOp::Put { key: k, value, .. } => {
                        if str_equal(k.as_str(), key) {
                            assert(spec_tx_value(pre, key@) == Some(value@));
                            return Some(value.clone());
                        }
                    },
                    LogOp::Delete { key: k } => {
                        if str_equal(k.as_str(), key) {
                            assert(spec_tx_value(pre, key@) == None::<Seq<char>>);
                            return None;
                        }
                    },
                    LogOp::Transaction { .. } => {},
                }
                i = i - 1;
            }
            None
        },
    }
}

/// What the operations `ops`, earlier in a batch, did last to `key`: a
/// `Put` leaves it the value put, a `Delete` leaves it absent; none when
/// no operation among them is on `key`.
pub open spec fn spec_prior_in_batch(ops: Seq<LogOp>, key: Seq<char>) -> Option<Option<Seq<char>>>
    decreases ops.len(),
{
    if ops.len() == 0 {
        None
    } else {
        match ops.last() {
            LogOp::Put { key: k, value, .. } => if k@ == key {
                Some(Some(value@))
            } else {
                spec_prior_in_batch(ops.drop_last(), key)
            },
            LogOp::Delete { key: k } => if k@ == key {
                Some(None)
            } else {
                spec_prior_in_batch(ops.drop_last(), key)
            },
            LogOp::Transaction { .. } => spec_prior_in_batch(ops.drop_last(), key),
        }
    }
}

/// The value that the first `i` operations of the batch `ops` leave `key`
/// with (`Some(None)`: deleted), or none when none of them is on `key`, so
/// that the key still holds its stored value before the i-th operation.
pub fn prior_in_batch(ops: &Vec<LogOp>, i: usize, key: &str) -> (r: Option<Option<String>>)
    requires
        i <= ops@.len(),
    ensures
        match r {
            Some(v) => spec_prior_in_batch(ops@.take(i as int), key@) == Some(opt_view(v)),
            None => spec_prior_in_batch(ops@.take(i as int), key@) is None,
        },
{
    let mut j = i;
    while j > 0
        invariant
            j <= i <= ops@.len(),
            spec_prior_in_batch(ops@.take(j as int), key@) == spec_prior_in_batch(ops@.take(i as int), key@),
        decreases j,
    {
        let ghost pre = ops@.take(j as int);
        assert(pre.drop_last() =~= ops@.take(j - 1));
        assert(pre.last() == ops@[j - 1]);
        match &ops[j - 1] {
            LogOp::Put { key: k, value, .. } => {
                if str_equal(k.as_str(), key) {
                    return Some(Some(value.clone()));
                }
            },
            LogOp::Delete { key: k } => {
                if str_equal(k.as_str(), key) {
                    return Some(None);
                }
            },
            LogOp::Transaction { .. } => {},
        }
        j = j - 1;
    }
    None
}

/// A builder for atomic transactions.
pub struct Transaction {
    ops: Vec<LogOp>,
}

impl Transaction {
    /// The operations added so far, in order.
    pub closed spec fn view(&self) -> Seq<LogOp> {
        self.ops@
    }

    /// Create a new empty transaction.
    pub fn new() -> (t: Self)
        ensures
            t.view() == Seq::<LogOp>::empty(),
    {
        Transaction { ops: Vec::new() }
    }

    /// Add a PUT (set) operation to the transaction.
    pub fn set(self, key: String, value: String) -> (t: Self)
        ensures
            t.view() == self.view().push(LogOp::Put { key, value, expiry: None }),
    {
        let mut ops = self.ops;
        ops.push(LogOp::Put { key, value, expiry: None });
        Transaction { ops }
    }

    /// Add a PUT (set) operation whose key expires `ttl` nanoseconds after `now`
    /// (nanoseconds since the Unix epoch).
    pub fn set_ex(self, key: String, value: String, ttl: u128, now: u128) -> (t: Self)
        requires
            now + ttl <= u128::MAX,
        ensures
            t.view() == self.view().push(LogOp::Put { key, value, expiry: Some((now + ttl) as u128) }),
    {
        let mut ops = self.ops;
        ops.push(LogOp::Put { key, value, expiry: Some(now + ttl) });
        Transaction { ops }
    }

    /// Add a DELETE operation to the transaction.
    pub fn delete(self, key: String) -> (t: Self)
        ensures
            t.view() == self.view().push(LogOp::Delete { key }),
    {
        let mut ops = self.ops;
        ops.push(LogOp::Delete { key });
        Transaction { ops }
    }

    /// Consumes the builder and returns the operations.
    pub fn build(self) -> (ops: Vec<LogOp>)
        ensures
            ops@ == self.view(),
    {
        self.ops
    }
}

} // verus!
