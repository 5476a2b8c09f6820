//! Secondary indexes: for each indexed field, the keys whose document has
//! each value at that field.
use vstd::prelude::*;
use crate::json::{json_field_text, spec_json_field};
use crate::strmap::{StrMap, string_views, opt_view};

verus! {

broadcast use vstd::seq_lib::group_seq_properties;

/// The keys of one bucket, as character sequences.
pub open spec fn bucket_view(b: Vec<String>) -> Seq<Seq<char>> {
    string_views(b@)
}

/// One field's index: from the JSON text of a field value to its bucket of keys.
pub open spec fn field_view(fi: StrMap<Vec<String>>) -> Map<Seq<char>, Seq<Seq<char>>> {
    fi.view().map_values(|b: Vec<String>| bucket_view(b))
}

/// The bucket for `t`, or an empty one.
pub open spec fn bucket_or_empty(fm: Map<Seq<char>, Seq<Seq<char>>>, t: Seq<char>) -> Seq<Seq<char>> {
    if fm.contains_key(t) {
        fm[t]
    } else {
        Seq::empty()
    }
}

/// The predicate "is not `key`".
pub open spec fn other_than(key: Seq<char>) -> spec_fn(Seq<char>) -> bool {
    |x: Seq<char>| x != key
}

/// The value at `field` of an optional document.
pub open spec fn field_of(doc: Option<Seq<char>>, field: Seq<char>) -> Option<Seq<char>> {
    match doc {
        Some(d) => spec_json_field(d, field),
        None => None,
    }
}

/// One field's index after `key` changes from the document `old` to the
/// document `new` (none: absent): `key` leaves the bucket of its old value
/// at `field`, if that bucket exists, and joins the end of the bucket of its
/// new value, which is created if needed.
pub open spec fn spec_update_field(
    fm: Map<Seq<char>, Seq<Seq<char>>>,
    field: Seq<char>,
    key: Seq<char>,
    old: Option<Seq<char>>,
    new: Option<Seq<char>>,
) -> Map<Seq<char>, Seq<Seq<char>>> {
    let m1 = match field_of(old, field) {
        Some(t) => if fm.contains_key(t) {
            fm.insert(t, fm[t].filter(other_than(key)))
        } else {
            fm
        },
        None => fm,
    };
    match field_of(new, field) {
        Some(t) => m1.insert(t, bucket_or_empty(m1, t).push(key)),
        None => m1,
    }
}

/// All secondary indexes after `key` changes from `old` to `new`.
pub open spec fn spec_update(
    sec: Map<Seq<char>, Map<Seq<char>, Seq<Seq<char>>>>,
    key: Seq<char>,
    old: Option<Seq<char>>,
    new: Option<Seq<char>>,
) -> Map<Seq<char>, Map<Seq<char>, Seq<Seq<char>>>> {
    sec.map_entries(|f: Seq<char>, fm: Map<Seq<char>, Seq<Seq<char>>>| spec_update_field(fm, f, key, old, new))
}

/// The (key, document) pairs of a list, as character sequences.
pub open spec fn doc_views(docs: Seq<(String, String)>) -> Seq<(Seq<char>, Seq<char>)> {
    Seq::new(docs.len(), |i: int| (docs[i].0@, docs[i].1@))
}

/// The index of `field` built from the documents `docs`, taken in order:
/// each key joins the end of the bucket of its document's value at `field`.
pub open spec fn spec_build(field: Seq<char>, docs: Seq<(Seq<char>, Seq<char>)>) -> Map<Seq<char>, Seq<Seq<char>>>
    decreases docs.len(),
{
    if docs.len() == 0 {
        Map::empty()
    } else {
        let m = spec_build(field, docs.drop_last());
        let (k, d) = docs.last();
        match spec_json_field(d, field) {
            Some(t) => m.insert(t, bucket_or_empty(m, t).push(k)),
            None => m,
        }
    }
}

/// `fm` indexes `field` of the documents `docs` exactly: a bucket holds a
/// key if and only if that key's document has that value at `field`, and
/// no bucket holds a key twice.
pub open spec fn consistent_field(
    fm: Map<Seq<char>, Seq<Seq<char>>>,
    field: Seq<char>,
    docs: Map<Seq<char>, Seq<char>>,
) -> bool {
    &&& forall|t: Seq<char>| #[trigger] fm.contains_key(t) ==> fm[t].no_duplicates()
    &&& forall|t: Seq<char>, k: Seq<char>|
        #[trigger] bucket_or_empty(fm, t).contains(k) <==> (docs.contains_key(k) && spec_json_field(docs[k], field) == Some(t))
}

/// Every secondary index indexes its field of `docs` exactly.
pub open spec fn consistent(sec: Map<Seq<char>, Map<Seq<char>, Seq<Seq<char>>>>, docs: Map<Seq<char>, Seq<char>>) -> bool {
    forall|f: Seq<char>| #[trigger] sec.contains_key(f) ==> consistent_field(sec[f], f, docs)
}

/// Filtering keeps a sequence free of duplicates, and keeps exactly the
/// elements that pass.
proof fn lemma_filter_facts(s: Seq<Seq<char>>, key: Seq<char>)
    ensures
        s.no_duplicates() ==> s.filter(other_than(key)).no_duplicates(),
        forall|x: Seq<char>| #[trigger] s.filter(other_than(key)).contains(x) <==> (s.contains(x) && x != key),
    decreases s.len(),
{
    reveal_with_fuel(Seq::filter, 1);
    let p = other_than(key);
    assert forall|x: Seq<char>| #[trigger] s.filter(p).contains(x) <==> (s.contains(x) && x != key) by {
        if s.filter(p).contains(x) {
            s.lemma_filter_contains_rev(p, x);
            let i = choose|i: int| 0 <= i < s.filter(p).len() && s.filter(p)[i] == x;
            s.lemma_filter_pred(p, i);
        }
        if s.contains(x) && x != key {
            let i = choose|i: int| 0 <= i < s.len() && s[i] == x;
            s.lemma_filter_contains(p, i);
        }
    }
    if s.len() > 0 {
        let rest = s.drop_last();
        lemma_filter_facts(rest, key);
        if s.no_duplicates() {
            assert(rest.no_duplicates()) by {
                assert forall|i: int, j: int| 0 <= i < rest.len() && 0 <= j < rest.len() && i != j
                    implies rest[i] != rest[j] by {
                    assert(rest[i] == s[i] && rest[j] == s[j]);
                }
            }
            assert(!rest.contains(s.last())) by {
                if rest.contains(s.last()) {
                    let i = choose|i: int| 0 <= i < rest.len() && rest[i] == s.last();
                    assert(s[i] == s[s.len() - 1]);
                }
            }
            let fr = rest.filter(p);
            assert(s.filter(p) == if p(s.last()) { fr.push(s.last()) } else { fr });
            if p(s.last()) {
                assert(!fr.contains(s.last()));
                assert forall|i: int, j: int| 0 <= i < fr.len() + 1 && 0 <= j < fr.len() + 1 && i != j
                    implies fr.push(s.last())[i] != fr.push(s.last())[j] by {
                    if i < fr.len() && j < fr.len() {
                    } else if i == fr.len() {
                        assert(fr.push(s.last())[j] == fr[j]);
                    } else {
                        assert(fr.push(s.last())[i] == fr[i]);
                    }
                }
            }
        }
    }
}

/// One field's index stays exact when `key` changes from its current
/// document to `new` (none: deleted), provided the update is told the
/// key's current document.
pub proof fn lemma_update_field_consistent(
    fm: Map<Seq<char>, Seq<Seq<char>>>,
    field: Seq<char>,
    docs: Map<Seq<char>, Seq<char>>,
    key: Seq<char>,
    new: Option<Seq<char>>,
)
    requires
        consistent_field(fm, field, docs),
    ensures
        consistent_field(
            spec_update_field(fm, field, key, docs.get(key), new),
            field,
            match new {
                Some(v) => docs.insert(key, v),
                None => docs.remove(key),
            },
        ),
{
    let docs2 = match new {
        Some(v) => docs.insert(key, v),
        None => docs.remove(key),
    };
    let old = docs.get(key);
    let m1 = match field_of(old, field) {
        Some(t) => if fm.contains_key(t) {
            fm.insert(t, fm[t].filter(other_than(key)))
        } else {
            fm
        },
        None => fm,
    };
    let m2 = spec_update_field(fm, field, key, old, new);
    // After removal, no bucket holds `key`, and the other keys are where they were.
    assert forall|t: Seq<char>, k: Seq<char>| #[trigger] bucket_or_empty(m1, t).contains(k)
        <==> (k != key && bucket_or_empty(fm, t).contains(k)) by {
        if field_of(old, field) is Some && fm.contains_key(field_of(old, field)->0) && t == field_of(old, field)->0 {
            lemma_filter_facts(fm[t], key);
        } else {
            if bucket_or_empty(fm, t).contains(key) {
                assert(docs.contains_key(key) && spec_json_field(docs[key], field) == Some(t));
                assert(field_of(old, field) == Some(t));
                assert(fm.contains_key(t));
            }
        }
    }
    assert forall|t: Seq<char>| #[trigger] m1.contains_key(t) implies m1[t].no_duplicates() by {
        if field_of(old, field) is Some && fm.contains_key(field_of(old, field)->0) && t == field_of(old, field)->0 {
            lemma_filter_facts(fm[t], key);
        }
    }
    assert forall|t: Seq<char>, k: Seq<char>| #[trigger] bucket_or_empty(m2, t).contains(k)
        <==> (docs2.contains_key(k) && spec_json_field(docs2[k], field) == Some(t)) by {
        match field_of(new, field) {
            Some(t2) => {
                let b = bucket_or_empty(m1, t2);
                if t == t2 {
                    assert(bucket_or_empty(m2, t) == b.push(key));
                    if b.push(key).contains(k) && k != key {
                        let i = choose|i: int| 0 <= i < b.push(key).len() && b.push(key)[i] == k;
                        assert(b[i] == k);
                    }
                    if k == key {
                        assert(b.push(key)[b.len() as int] == key);
                    } else if bucket_or_empty(m1, t).contains(k) {
                        let i = choose|i: int| 0 <= i < b.len() && b[i] == k;
                        assert(b.push(key)[i] == k);
                    }
                } else {
                    assert(bucket_or_empty(m2, t) == bucket_or_empty(m1, t));
                }
            },
            None => {},
        }
    }
    assert forall|t: Seq<char>| #[trigger] m2.contains_key(t) implies m2[t].no_duplicates() by {
        match field_of(new, field) {
            Some(t2) => {
                if t == t2 {
                    let b = bucket_or_empty(m1, t2);
                    assert(!b.contains(key));
                    assert(b.no_duplicates());
                    assert forall|i: int, j: int| 0 <= i < b.len() + 1 && 0 <= j < b.len() + 1 && i != j
                        implies b.push(key)[i] != b.push(key)[j] by {
                        if i < b.len() && j < b.len() {
                        } else if i == b.len() {
                            assert(b.push(key)[j] == b[j]);
                        } else {
                            assert(b.push(key)[i] == b[i]);
                        }
                    }
                }
            },
            None => {},
        }
    }
}

/// Every secondary index stays exact when `key` changes from its current
/// document to `new` (none: deleted), provided the update is told the
/// key's current document.
pub proof fn lemma_update_keeps_consistent(
    sec: Map<Seq<char>, Map<Seq<char>, Seq<Seq<char>>>>,
    docs: Map<Seq<char>, Seq<char>>,
    key: Seq<char>,
    new: Option<Seq<char>>,
)
    requires
        consistent(sec, docs),
    ensures
        consistent(
            spec_update(sec, key, docs.get(key), new),
            match new {
                Some(v) => docs.insert(key, v),
                None => docs.remove(key),
            },
        ),
{
    let sec2 = spec_update(sec, key, docs.get(key), new);
    assert forall|f: Seq<char>| #[trigger] sec2.contains_key(f) implies consistent_field(
        sec2[f],
        f,
        match new {
            Some(v) => docs.insert(key, v),
            None => docs.remove(key),
        },
    ) by {
        lemma_update_field_consistent(sec[f], f, docs, key, new);
    }
}

/// The index built from a list of documents with distinct keys indexes
/// exactly those documents: a bucket holds a key if and only if the list
/// gives that key a document with that value at the field, and no bucket
/// holds a key twice.
pub proof fn lemma_build_consistent(field: Seq<char>, docs: Seq<(Seq<char>, Seq<char>)>)
    requires
        forall|i: int, j: int| 0 <= i < docs.len() && 0 <= j < docs.len() && i != j ==> docs[i].0 != docs[j].0,
    ensures
        forall|t: Seq<char>| #[trigger] spec_build(field, docs).contains_key(t) ==> spec_build(field, docs)[t].no_duplicates(),
        forall|t: Seq<char>, k: Seq<char>| #[trigger] bucket_or_empty(spec_build(field, docs), t).contains(k)
            <==> exists|i: int| 0 <= i < docs.len() && docs[i].0 == k && spec_json_field(docs[i].1, field) == Some(t),
    decreases docs.len(),
{
    if docs.len() > 0 {
        let rest = docs.drop_last();
        lemma_build_consistent(field, rest);
        let m = spec_build(field, rest);
        let (k0, d0) = docs.last();
        let n = rest.len();
        assert(docs[n as int] == (k0, d0));
        // The last key occurs nowhere in the index of the earlier documents.
        assert forall|t: Seq<char>| !bucket_or_empty(m, t).contains(k0) by {
            if bucket_or_empty(m, t).contains(k0) {
                let i = choose|i: int| 0 <= i < rest.len() && rest[i].0 == k0 && spec_json_field(rest[i].1, field) == Some(t);
                assert(docs[i].0 == docs[n as int].0);
            }
        }
        assert forall|t: Seq<char>, k: Seq<char>| #[trigger] bucket_or_empty(spec_build(field, docs), t).contains(k)
            <==> exists|i: int| 0 <= i < docs.len() && docs[i].0 == k && spec_json_field(docs[i].1, field) == Some(t) by {
            let b = bucket_or_empty(m, t);
            if exists|i: int| 0 <= i < docs.len() && docs[i].0 == k && spec_json_field(docs[i].1, field) == Some(t) {
                let i = choose|i: int| 0 <= i < docs.len() && docs[i].0 == k && spec_json_field(docs[i].1, field) == Some(t);
                if i < n {
                    assert(rest[i] == docs[i]);
                    assert(b.contains(k));
                    if spec_json_field(d0, field) == Some(t) {
                        let j = choose|j: int| 0 <= j < b.len() && b[j] == k;
                        assert(b.push(k0)[j] == k);
                    }
                } else {
                    assert(b.push(k0)[b.len() as int] == k0);
                }
            }
            if bucket_or_empty(spec_build(field, docs), t).contains(k) {
                if spec_json_field(d0, field) == Some(t) {
                    let j = choose|j: int| 0 <= j < b.push(k0).len() && b.push(k0)[j] == k;
                    if j < b.len() {
                        assert(b[j] == k);
                        let i = choose|i: int| 0 <= i < rest.len() && rest[i].0 == k && spec_json_field(rest[i].1, field) == Some(t);
                        assert(docs[i] == rest[i]);
                    }
                } else {
                    let i = choose|i: int| 0 <= i < rest.len() && rest[i].0 == k && spec_json_field(rest[i].1, field) == Some(t);
                    assert(docs[i] == rest[i]);
                }
            }
        }
        assert forall|t: Seq<char>| #[trigger] spec_build(field, docs).contains_key(t) implies spec_build(field, docs)[t].no_duplicates() by {
            if spec_json_field(d0, field) == Some(t) {
                let b = bucket_or_empty(m, t);
                assert(!b.contains(k0));
                assert forall|i: int, j: int| 0 <= i < b.len() + 1 && 0 <= j < b.len() + 1 && i != j
                    implies b.push(k0)[i] != b.push(k0)[j] by {
                    if i < b.len() && j < b.len() {
                    } else if i == b.len() {
                        assert(b.push(k0)[j] == b[j]);
                    } else {
                        assert(b.push(k0)[i] == b[i]);
                    }
                }
            }
        }
    }
}

/// One field's index with `key` taken out of every bucket.
pub open spec fn spec_forget_field(fm: Map<Seq<char>, Seq<Seq<char>>>, key: Seq<char>) -> Map<Seq<char>, Seq<Seq<char>>> {
    fm.map_values(|b: Seq<Seq<char>>| b.filter(other_than(key)))
}

/// All secondary indexes with `key` taken out of every bucket.
pub open spec fn spec_forget(
    sec: Map<Seq<char>, Map<Seq<char>, Seq<Seq<char>>>>,
    key: Seq<char>,
) -> Map<Seq<char>, Map<Seq<char>, Seq<Seq<char>>>> {
    sec.map_values(|fm: Map<Seq<char>, Seq<Seq<char>>>| spec_forget_field(fm, key))
}

/// Taking a key out of every bucket keeps the indexes exact for the
/// documents without that key.
pub proof fn lemma_forget_keeps_consistent(
    sec: Map<Seq<char>, Map<Seq<char>, Seq<Seq<char>>>>,
    docs: Map<Seq<char>, Seq<char>>,
    key: Seq<char>,
)
    requires
        consistent(sec, docs),
    ensures
        consistent(spec_forget(sec, key), docs.remove(key)),
{
    let sec2 = spec_forget(sec, key);
    let docs2 = docs.remove(key);
    assert forall|f: Seq<char>| #[trigger] sec2.contains_key(f) implies consistent_field(sec2[f], f, docs2) by {
        let fm = sec[f];
        let fm2 = sec2[f];
        assert(fm2 == spec_forget_field(fm, key));
        assert forall|t: Seq<char>| #[trigger] fm2.contains_key(t) implies fm2[t].no_duplicates() by {
            lemma_filter_facts(fm[t], key);
        }
        assert forall|t: Seq<char>, k: Seq<char>| #[trigger] bucket_or_empty(fm2, t).contains(k)
            <==> (docs2.contains_key(k) && spec_json_field(docs2[k], f) == Some(t)) by {
            if fm.contains_key(t) {
                lemma_filter_facts(fm[t], key);
                assert(bucket_or_empty(fm, t).contains(k) <==> (docs.contains_key(k) && spec_json_field(docs[k], f) == Some(t)));
            } else {
                assert(!bucket_or_empty(fm, t).contains(k));
            }
        }
    }
}

/// The documents an index is built from are the given pairs, unchanged.
pub proof fn lemma_doc_views_unchanged(docs: Seq<(String, String)>)
    ensures
        doc_views(docs).len() == docs.len(),
        forall|i: int| 0 <= i < docs.len() ==> #[trigger] doc_views(docs)[i] == (docs[i].0@, docs[i].1@),
{
}

/// An index created over (key, document) pairs with distinct keys files
/// each key exactly under the JSON text of its own document's value at the
/// field: key `k` is in the bucket `t` if and only if some pair is `k` with
/// a document whose value at `field` has the JSON text `t`; and no bucket
/// holds a key twice.
pub proof fn lemma_create_index_buckets(field: Seq<char>, docs: Seq<(String, String)>)
    requires
        forall|i: int, j: int| 0 <= i < docs.len() && 0 <= j < docs.len() && i != j ==> docs[i].0@ != docs[j].0@,
    ensures
        forall|t: Seq<char>, k: Seq<char>| #[trigger] bucket_or_empty(spec_build(field, doc_views(docs)), t).contains(k)
            <==> exists|i: int| 0 <= i < docs.len() && docs[i].0@ == k && spec_json_field(docs[i].1@, field) == Some(t),
        forall|t: Seq<char>| #[trigger] spec_build(field, doc_views(docs)).contains_key(t)
            ==> spec_build(field, doc_views(docs))[t].no_duplicates(),
{
    let dv = doc_views(docs);
    lemma_doc_views_unchanged(docs);
    assert forall|i: int, j: int| 0 <= i < dv.len() && 0 <= j < dv.len() && i != j implies dv[i].0 != dv[j].0 by {
        assert(dv[i] == (docs[i].0@, docs[i].1@) && dv[j] == (docs[j].0@, docs[j].1@));
    }
    lemma_build_consistent(field, dv);
    assert forall|t: Seq<char>, k: Seq<char>| #[trigger] bucket_or_empty(spec_build(field, dv), t).contains(k)
        <==> exists|i: int| 0 <= i < docs.len() && docs[i].0@ == k && spec_json_field(docs[i].1@, field) == Some(t) by {
        if bucket_or_empty(spec_build(field, dv), t).contains(k) {
            let i = choose|i: int| 0 <= i < dv.len() && dv[i].0 == k && spec_json_field(dv[i].1, field) == Some(t);
            assert(dv[i] == (docs[i].0@, docs[i].1@));
        }
        if exists|i: int| 0 <= i < docs.len() && docs[i].0@ == k && spec_json_field(docs[i].1@, field) == Some(t) {
            let i = choose|i: int| 0 <= i < docs.len() && docs[i].0@ == k && spec_json_field(docs[i].1@, field) == Some(t);
            assert(dv[i] == (docs[i].0@, docs[i].1@));
        }
    }
}

/// The secondary indexes: field name -> (JSON text of a value -> keys).
pub struct SecondaryIndexes {
    fields: StrMap<StrMap<Vec<String>>>,
}

/// A copy of a list of strings.
fn copy_strings(v: &Vec<String>) -> (r: Vec<String>)
    ensures
        r@ == v@,
{
    let mut r: Vec<String> = Vec::new();
    let mut i: usize = 0;
    while i < v.len()
        invariant
            i <= v@.len(),
            r@ == v@.take(i as int),
        decreases v@.len() - i,
    {
        r.push(v[i].clone());
        i = i + 1;
        assert(r@ =~= v@.take(i as int));
    }
    assert(v@.take(v@.len() as int) =~= v@);
    r
}

/// The list without any occurrence of `key`.
fn without_key(b: &Vec<String>, key: &str) -> (r: Vec<String>)
    ensures
        string_views(r@) == string_views(b@).filter(other_than(key@)),
{
    let mut r: Vec<String> = Vec::new();
    let mut i: usize = 0;
    assert(string_views(b@).take(0) =~= Seq::<Seq<char>>::empty());
    reveal_with_fuel(Seq::filter, 1);
    while i < b.len()
        invariant
            i <= b@.len(),
            string_views(r@) == string_views(b@).take(i as int).filter(other_than(key@)),
        decreases b@.len() - i,
    {
        let ghost pre = string_views(b@).take(i as int);
        let keep = !crate::strmap::str_equal(b[i].as_str(), key);
        let ghost old_r = string_views(r@);
        if keep {
            r.push(b[i].clone());
            assert(string_views(r@) =~= old_r.push(b@[i as int]@));
        }
        i = i + 1;
        proof {
            assert(string_views(b@).take(i as int) =~= pre.push(b@[i - 1]@));
            pre.lemma_filter_push(b@[i - 1]@, other_than(key@));
        }
    }
    assert(string_views(b@).take(b@.len() as int) =~= string_views(b@));
    r
}

impl SecondaryIndexes {
    pub closed spec fn wf(self) -> bool {
        &&& self.fields.wf()
        &&& forall|f: Seq<char>| #[trigger] self.fields.view().contains_key(f) ==> self.fields.view()[f].wf()
    }

    /// Field name -> (JSON text of a value -> the keys in its bucket).
    pub closed spec fn view(self) -> Map<Seq<char>, Map<Seq<char>, Seq<Seq<char>>>> {
        self.fields.view().map_values(|fi: StrMap<Vec<String>>| field_view(fi))
    }

    /// No secondary indexes.
    pub fn new() -> (s: Self)
        ensures
            s.wf(),
            s.view() == Map::<Seq<char>, Map<Seq<char>, Seq<Seq<char>>>>::empty(),
    {
        let s = SecondaryIndexes { fields: StrMap::new() };
        assert(s.view() =~= Map::<Seq<char>, Map<Seq<char>, Seq<Seq<char>>>>::empty());
        s
    }

    /// Updates one field's index for `key` changing from `old_doc` to `new_doc`.
    fn update_field(fi: &mut StrMap<Vec<String>>, field: &str, key: &str, old_doc: Option<&str>, new_doc: Option<&str>)
        requires
            old(fi).wf(),
        ensures
            final(fi).wf(),
            field_view(*final(fi)) == spec_update_field(
                field_view(*old(fi)),
                field@,
                key@,
                match old_doc { Some(s) => Some(s@), None => None },
                match new_doc { Some(s) => Some(s@), None => None },
            ),
    {
        let ghost fm0 = field_view(*fi);
        let ghost oldv: Option<Seq<char>> = match old_doc { Some(s) => Some(s@), None => None };
        let ghost newv: Option<Seq<char>> = match new_doc { Some(s) => Some(s@), None => None };
        let ghost m1 = match field_of(oldv, field@) {
            Some(t) => if fm0.contains_key(t) {
                fm0.insert(t, fm0[t].filter(other_than(key@)))
            } else {
                fm0
            },
            None => fm0,
        };
        if let Some(ov) = old_doc {
            if let Some(t) = json_field_text(ov, field) {
                match fi.remove(t.as_str()) {
                    Some(b) => {
                        let nb = without_key(&b, key);
                        let ghost tv = t@;
                        fi.insert(t, nb);
                        assert(field_view(*fi) =~= fm0.insert(tv, fm0[tv].filter(other_than(key@))));
                    },
                    None => {
                        assert(field_view(*fi) =~= fm0);
                    },
                }
            }
        }
        assert(field_view(*fi) == m1);
        if let Some(nv) = new_doc {
            if let Some(t) = json_field_text(nv, field) {
                let ghost tv = t@;
                let mut b = match fi.remove(t.as_str()) {
                    Some(b) => b,
                    None => Vec::new(),
                };
                assert(bucket_view(b) =~= bucket_or_empty(m1, tv));
                b.push(String::from_str(key));
                assert(bucket_view(b) =~= bucket_or_empty(m1, tv).push(key@));
                fi.insert(t, b);
                assert(field_view(*fi) =~= m1.insert(tv, bucket_or_empty(m1, tv).push(key@)));
            }
        }
    }

    /// Updates every secondary index for `key` changing from the document
    /// `old_doc` to the document `new_doc` (none: the key is absent).
    pub fn update(&mut self, key: &str, old_doc: Option<&str>, new_doc: Option<&str>)
        requires
            old(self).wf(),
        ensures
            final(self).wf(),
            final(self).view() == spec_update(
                old(self).view(),
                key@,
                match old_doc { Some(s) => Some(s@), None => None },
                match new_doc { Some(s) => Some(s@), None => None },
            ),
    {
        let ghost oldv: Option<Seq<char>> = match old_doc { Some(s) => Some(s@), None => None };
        let ghost newv: Option<Seq<char>> = match new_doc { Some(s) => Some(s@), None => None };
        let ghost start = self.view();
        let names = self.fields.keys();
        let n = names.len();
        let mut i: usize = 0;
        while i < n
            invariant
                n == names@.len(),
                i <= n,
                self.wf(),
                string_views(names@).no_duplicates(),
                string_views(names@).to_set() == start.dom(),
                oldv == match old_doc { Some(s) => Some(s@), None => None },
                newv == match new_doc { Some(s) => Some(s@), None => None },
                self.view().dom() == start.dom(),
                forall|f: Seq<char>| #[trigger] self.view().contains_key(f) ==> self.view()[f] == (
                    if string_views(names@).take(i as int).contains(f) {
                        spec_update_field(start[f], f, key@, oldv, newv)
                    } else {
                        start[f]
                    }),
            decreases n - i,
        {
            let ghost pre = *self;
            let name = names[i].clone();
            let ghost fv = name@;
            assert(string_views(names@)[i as int] == fv);
            assert(string_views(names@).to_set().contains(fv));
            let mut fi = match self.fields.remove(name.as_str()) {
                Some(fi) => fi,
                None => {
                    assert(false);
                    StrMap::new()
                },
            };
            let ghost fi_old = field_view(fi);
            assert(fi_old == pre.view()[fv]);
            Self::update_field(&mut fi, name.as_str(), key, old_doc, new_doc);
            let ghost fi_new = field_view(fi);

            self.fields.insert(name, fi);
            proof {
                assert(!string_views(names@).take(i as int).contains(fv)) by {
                    if string_views(names@).take(i as int).contains(fv) {
                        let j = choose|j: int| 0 <= j < i && string_views(names@).take(i as int)[j] == fv;
                        assert(string_views(names@)[j] == fv);
                    }
                }
                assert(string_views(names@).take(i + 1) =~= string_views(names@).take(i as int).push(fv));
                assert(self.view().dom() =~= start.dom());
                assert forall|f: Seq<char>| #[trigger] self.view().contains_key(f) implies self.view()[f] == (
                    if string_views(names@).take(i + 1).contains(f) {
                        spec_update_field(start[f], f, key@, oldv, newv)
                    } else {
                        start[f]
                    }) by {
                    if f == fv {
                        assert(pre.view().contains_key(fv));
                        assert(pre.view()[fv] == start[fv]);
                        assert(self.fields.view()[fv] == fi);
                        assert(self.view()[fv] == fi_new);
                        assert(string_views(names@).take(i + 1).contains(fv)) by {
                            assert(string_views(names@).take(i + 1)[i as int] == fv);
                        }

                    } else {
                        assert(pre.view().contains_key(f));
                        assert(self.fields.view()[f] == pre.fields.view()[f]);
                        assert(self.view()[f] == pre.view()[f]);

                        assert(string_views(names@).take(i + 1).contains(f)
                            == string_views(names@).take(i as int).contains(f));
                    }
                }
            }
            i = i + 1;
        }
        proof {
            assert(string_views(names@).take(n as int) =~= string_views(names@));
            assert(self.view() =~= spec_update(start, key@, oldv, newv));
        }
    }

    /// Takes `key` out of every bucket of one field's index.
    fn forget_field(fi: &mut StrMap<Vec<String>>, key: &str)
        requires
            old(fi).wf(),
        ensures
            final(fi).wf(),
            field_view(*final(fi)) == spec_forget_field(field_view(*old(fi)), key@),
    {
        let ghost start = field_view(*fi);
        let names = fi.keys();
        let n = names.len();
        let mut i: usize = 0;
        while i < n
            invariant
                n == names@.len(),
                i <= n,
                fi.wf(),
                string_views(names@).no_duplicates(),
                string_views(names@).to_set() == start.dom(),
                field_view(*fi).dom() == start.dom(),
                forall|t: Seq<char>| #[trigger] field_view(*fi).contains_key(t) ==> field_view(*fi)[t] == (
                    if string_views(names@).take(i as int).contains(t) {
                        start[t].filter(other_than(key@))
                    } else {
                        start[t]
                    }),
            decreases n - i,
        {
            let ghost pre = field_view(*fi);
            let name = names[i].clone();
            let ghost tv = name@;
            assert(string_views(names@)[i as int] == tv);
            assert(string_views(names@).to_set().contains(tv));
            let b = match fi.remove(name.as_str()) {
                Some(b) => b,
                None => {
                    assert(false);
                    Vec::new()
                },
            };
            assert(bucket_view(b) == pre[tv]);
            let nb = without_key(&b, key);
            fi.insert(name, nb);
            proof {
                assert(!string_views(names@).take(i as int).contains(tv)) by {
                    if string_views(names@).take(i as int).contains(tv) {
                        let j = choose|j: int| 0 <= j < i && string_views(names@).take(i as int)[j] == tv;
                        assert(string_views(names@)[j] == tv);
                    }
                }
                assert(pre[tv] == start[tv]);
                assert(string_views(names@).take(i + 1) =~= string_views(names@).take(i as int).push(tv));
                assert(field_view(*fi).dom() =~= start.dom());
                assert forall|t: Seq<char>| #[trigger] field_view(*fi).contains_key(t) implies field_view(*fi)[t] == (
                    if string_views(names@).take(i + 1).contains(t) {
                        start[t].filter(other_than(key@))
                    } else {
                        start[t]
                    }) by {
                    if t == tv {
                        assert(string_views(names@).take(i + 1)[i as int] == tv);
                    } else {
                        assert(pre.contains_key(t));
                        assert(string_views(names@).take(i + 1).contains(t)
                            == string_views(names@).take(i as int).contains(t));
                    }
                }
            }
            i = i + 1;
        }
        proof {
            assert(string_views(names@).take(n as int) =~= string_views(names@));
            assert(field_view(*fi) =~= spec_forget_field(start, key@));
        }
    }

    /// Takes `key` out of every bucket of every secondary index.
    pub fn forget(&mut self, key: &str)
        requires
            old(self).wf(),
        ensures
            final(self).wf(),
            final(self).view() == spec_forget(old(self).view(), key@),
    {
        let ghost start = self.view();
        let names = self.fields.keys();
        let n = names.len();
        let mut i: usize = 0;
        while i < n
            invariant
                n == names@.len(),
                i <= n,
                self.wf(),
                string_views(names@).no_duplicates(),
                string_views(names@).to_set() == start.dom(),
                self.view().dom() == start.dom(),
                forall|f: Seq<char>| #[trigger] self.view().contains_key(f) ==> self.view()[f] == (
                    if string_views(names@).take(i as int).contains(f) {
                        spec_forget_field(start[f], key@)
                    } else {
                        start[f]
                    }),
            decreases n - i,
        {
            let ghost pre = *self;
            let name = names[i].clone();
            let ghost fv = name@;
            assert(string_views(names@)[i as int] == fv);
            assert(string_views(names@).to_set().contains(fv));
            let mut fi = match self.fields.remove(name.as_str()) {
                Some(fi) => fi,
                None => {
                    assert(false);
                    StrMap::new()
                },
            };
            let ghost fi_old = field_view(fi);
            assert(fi_old == pre.view()[fv]);
            Self::forget_field(&mut fi, key);
            let ghost fi_new = field_view(fi);
            self.fields.insert(name, fi);
            proof {
                assert(!string_views(names@).take(i as int).contains(fv)) by {
                    if string_views(names@).take(i as int).contains(fv) {
                        let j = choose|j: int| 0 <= j < i && string_views(names@).take(i as int)[j] == fv;
                        assert(string_views(names@)[j] == fv);
                    }
                }
                assert(string_views(names@).take(i + 1) =~= string_views(names@).take(i as int).push(fv));
                assert(self.view().dom() =~= start.dom());
                assert forall|f: Seq<char>| #[trigger] self.view().contains_key(f) implies self.view()[f] == (
                    if string_views(names@).take(i + 1).contains(f) {
                        spec_forget_field(start[f], key@)
                    } else {
                        start[f]
                    }) by {
                    if f == fv {
                        assert(pre.view().contains_key(fv));
                        assert(pre.view()[fv] == start[fv]);
                        assert(self.fields.view()[fv] == fi);
                        assert(self.view()[fv] == fi_new);
                        assert(string_views(names@).take(i + 1)[i as int] == fv);
                    } else {
                        assert(pre.view().contains_key(f));
                        assert(self.fields.view()[f] == pre.fields.view()[f]);
                        assert(self.view()[f] == pre.view()[f]);
                        assert(string_views(names@).take(i + 1).contains(f)
                            == string_views(names@).take(i as int).contains(f));
                    }
                }
            }
            i = i + 1;
        }
        proof {
            assert(string_views(names@).take(n as int) =~= string_views(names@));
            assert(self.view() =~= spec_forget(start, key@));
        }
    }

    /// Builds the index of `field` over the (key, document) pairs `docs`,
    /// replacing any earlier index of that field.
    pub fn create_index(&mut self, field: &str, docs: &Vec<(String, String)>)
        requires
            old(self).wf(),
        ensures
            final(self).wf(),
            final(self).view() == old(self).view().insert(field@, spec_build(field@, doc_views(docs@))),
    {
        let ghost start = self.view();
        let mut fi: StrMap<Vec<String>> = StrMap::new();
        let mut i: usize = 0;
        while i < docs.len()
            invariant
                i <= docs@.len(),
                fi.wf(),
                field_view(fi) == spec_build(field@, doc_views(docs@).take(i as int)),
            decreases docs@.len() - i,
        {
            let ghost pre = field_view(fi);
            let ghost dv = doc_views(docs@).take(i + 1);
            assert(dv.drop_last() =~= doc_views(docs@).take(i as int));
            assert(dv.last() == (docs@[i as int].0@, docs@[i as int].1@));
            if let Some(t) = json_field_text(docs[i].1.as_str(), field) {
                let ghost tv = t@;
                let mut b = match fi.remove(t.as_str()) {
                    Some(b) => b,
                    None => Vec::new(),
                };
                assert(bucket_view(b) =~= bucket_or_empty(pre, tv));
                b.push(docs[i].0.clone());
                assert(bucket_view(b) =~= bucket_or_empty(pre, tv).push(docs@[i as int].0@));
                fi.insert(t, b);
                assert(field_view(fi) =~= pre.insert(tv, bucket_or_empty(pre, tv).push(docs@[i as int].0@)));
            }
            i = i + 1;
        }
        assert(doc_views(docs@).take(docs@.len() as int) =~= doc_views(docs@));
        let name = String::from_str(field);
        self.fields.insert(name, fi);
        assert(self.view() =~= start.insert(field@, spec_build(field@, doc_views(docs@))));
    }

    /// The keys in the bucket of the JSON text `value` in the index of
    /// `field`; none when either is absent.
    pub fn get_by_index(&self, field: &str, value: &str) -> (keys: Vec<String>)
        requires
            self.wf(),
        ensures
            string_views(keys@) == (if self.view().contains_key(field@) {
                bucket_or_empty(self.view()[field@], value@)
            } else {
                Seq::empty()
            }),
    {
        match self.fields.get(field) {
            Some(fi) => match fi.get(value) {
                Some(b) => copy_strings(b),
                None => {
                    let r = Vec::new();
                    assert(string_views(r@) =~= Seq::<Seq<char>>::empty());
                    r
                },
            },
            None => {
                let r = Vec::new();
                assert(string_views(r@) =~= Seq::<Seq<char>>::empty());
                r
            },
        }
    }
}

} // verus!
