use vstd::prelude::*;

verus! {

/// The character sequences of a list of strings.
pub open spec fn string_views(s: Seq<String>) -> Seq<Seq<char>> {
    Seq::new(s.len(), |i: int| s[i]@)
}

/// The characters of an optional string.
pub open spec fn opt_view(o: Option<String>) -> Option<Seq<char>> {
    match o {
        Some(s) => Some(s@),
        None => None,
    }
}

/// A map keyed by strings, kept as a list of distinct keys with their values.
///
/// Its view is the finite `Map` from each key's characters to its value.
#[verifier::reject_recursive_types(V)]
pub struct StrMap<V> {
    slots: Vec<(String, V)>,
}

impl<V> StrMap<V> {
    /// The keys in slot order, as character sequences.
    pub closed spec fn key_seq(self) -> Seq<Seq<char>> {
        Seq::new(self.slots@.len(), |i: int| self.slots@[i].0@)
    }

    /// The slot that holds key `k`.
    closed spec fn pos(self, k: Seq<char>) -> int {
        choose|i: int| 0 <= i < self.slots@.len() && self.slots@[i].0@ == k
    }

    /// Well-formedness: no key occurs twice.
    pub closed spec fn wf(self) -> bool {
        self.key_seq().no_duplicates()
    }

    pub closed spec fn view(self) -> Map<Seq<char>, V> {
        Map::new(|k: Seq<char>| self.key_seq().contains(k), |k: Seq<char>| self.slots@[self.pos(k)].1)
    }

    proof fn lemma_pos(self, i: int)
        requires
            self.wf(),
            0 <= i < self.slots@.len(),
        ensures
            self.pos(self.slots@[i].0@) == i,
            self.view().contains_key(self.slots@[i].0@),
            self.view()[self.slots@[i].0@] == self.slots@[i].1,
    {
        let k = self.slots@[i].0@;
        assert(self.key_seq()[i] == k);
        let p = self.pos(k);
        assert(self.key_seq()[p] == k);
    }

    proof fn lemma_dom(self)
        requires
            self.wf(),
        ensures
            self.view().dom() == self.key_seq().to_set(),
            self.view().dom().finite(),
            self.view().len() == self.slots@.len(),
    {
        assert(self.view().dom() =~= self.key_seq().to_set());
        self.key_seq().unique_seq_to_set();
        vstd::seq_lib::seq_to_set_is_finite(self.key_seq());
    }

    /// Creates an empty map.
    pub fn new() -> (m: Self)
        ensures
            m.wf(),
            m.view() == Map::<Seq<char>, V>::empty(),
    {
        let m = StrMap { slots: Vec::new() };
        assert(m.view() =~= Map::<Seq<char>, V>::empty());
        m
    }

    /// The number of keys.
    pub fn len(&self) -> (n: usize)
        requires
            self.wf(),
        ensures
            n == self.view().len(),
    {
        proof {
            self.lemma_dom();
        }
        self.slots.len()
    }

    /// The slot holding `k`, if any.
    fn find(&self, k: &str) -> (r: Option<usize>)
        requires
            self.wf(),
        ensures
            match r {
                Some(i) => i < self.slots@.len() && self.slots@[i as int].0@ == k@,
                None => !self.view().contains_key(k@),
            },
    {
        let n = self.slots.len();
        let mut i: usize = 0;
        while i < n
            invariant
                n == self.slots@.len(),
                i <= n,
                forall|j: int| 0 <= j < i ==> self.slots@[j].0@ != k@,
            decreases n - i,
        {
            if str_equal(self.slots[i].0.as_str(), k) {
                return Some(i);
            }
            i = i + 1;
        }
        proof {
            if self.key_seq().contains(k@) {
                let j = choose|j: int| 0 <= j < self.key_seq().len() && self.key_seq()[j] == k@;
                assert(self.slots@[j].0@ == k@);
            }
        }
        None
    }

    /// Whether `k` is a key of the map.
    pub fn contains_key(&self, k: &str) -> (b: bool)
        requires
            self.wf(),
        ensures
            b == self.view().contains_key(k@),
    {
        match self.find(k) {
            Some(i) => {
                proof {
                    self.lemma_pos(i as int);
                }
                true
            },
            None => false,
        }
    }

    /// The value stored under `k`, if any.
    pub fn get(&self, k: &str) -> (r: Option<&V>)
        requires
            self.wf(),
        ensures
            match r {
                Some(v) => self.view().contains_key(k@) && *v == self.view()[k@],
                None => !self.view().contains_key(k@),
            },
    {
        match self.find(k) {
            Some(i) => {
                proof {
                    self.lemma_pos(i as int);
                }
                Some(&self.slots[i].1)
            },
            None => None,
        }
    }

    /// Stores `v` under `k`, replacing any earlier value.
    pub fn insert(&mut self, k: String, v: V)
        requires
            old(self).wf(),
        ensures
            final(self).wf(),
            final(self).view() == old(self).view().insert(k@, v),
    {
        let ghost old_self = *self;
        match self.find(k.as_str()) {
            Some(i) => {
                let ghost kv = k@;
                let ghost kk = k;
                let r = &mut self.slots[i];
                *r = (k, v);
                proof {
                    assert forall|a: int, b: int|
                        0 <= a < self.key_seq().len() && 0 <= b < self.key_seq().len() && a != b
                        implies self.key_seq()[a] != self.key_seq()[b] by {
                        assert(old_self.key_seq()[a] != old_self.key_seq()[b]);
                    }
                    assert forall|key: Seq<char>| #[trigger] self.view().contains_key(key)
                        <==> old_self.view().insert(kv, v).contains_key(key) by {
                        if self.key_seq().contains(key) {
                            let j = choose|j: int| 0 <= j < self.key_seq().len() && self.key_seq()[j] == key;
                            if j != i as int {
                                assert(old_self.key_seq()[j] == key);
                            }
                        }
                        if old_self.key_seq().contains(key) {
                            let j = choose|j: int| 0 <= j < old_self.key_seq().len() && old_self.key_seq()[j] == key;
                            assert(self.key_seq()[j] == key || j == i as int);
                            if j == i as int {
                                assert(self.key_seq()[i as int] == kv);
                            }
                        }
                        if key == kv {
                            assert(self.key_seq()[i as int] == kv);
                        }
                    }
                    assert forall|key: Seq<char>| #[trigger] self.view().contains_key(key)
                        implies self.view()[key] == old_self.view().insert(kv, v)[key] by {
                        let j = choose|j: int| 0 <= j < self.key_seq().len() && self.key_seq()[j] == key;
                        assert(self.slots@[j].0@ == key);
                        let p = self.pos(key);
                        self.lemma_pos(p);
                        assert(self.key_seq()[i as int] == kv);
                        assert(self.slots@ == old_self.slots@.update(i as int, (kk, v)));
                        if p != i as int {
                            assert(self.key_seq()[p] != self.key_seq()[i as int]);
                            assert(self.slots@[p] == old_self.slots@[p]);
                            old_self.lemma_pos(p);
                        }
                    }
                    assert(self.view() =~= old_self.view().insert(kv, v));
                }
            },
            None => {
                let ghost kv = k@;
                self.slots.push((k, v));
                proof {
                    let n = old_self.slots@.len();
                    assert(self.key_seq() =~= old_self.key_seq().push(kv));
                    assert(!old_self.key_seq().contains(kv));
                    assert forall|a: int, b: int|
                        0 <= a < self.key_seq().len() && 0 <= b < self.key_seq().len() && a != b
                        implies self.key_seq()[a] != self.key_seq()[b] by {
                        if a < n && b < n {
                            assert(old_self.key_seq()[a] != old_self.key_seq()[b]);
                        } else if a == n {
                            assert(old_self.key_seq()[b] == self.key_seq()[b]);
                        } else {
                            assert(old_self.key_seq()[a] == self.key_seq()[a]);
                        }
                    }
                    assert(self.wf());
                    assert forall|key: Seq<char>| #[trigger] self.view().contains_key(key)
                        <==> old_self.view().insert(kv, v).contains_key(key) by {
                        if old_self.key_seq().contains(key) {
                            let j = choose|j: int| 0 <= j < old_self.key_seq().len() && old_self.key_seq()[j] == key;
                            assert(self.key_seq()[j] == key);
                        }
                        if key == kv {
                            assert(self.key_seq()[n as int] == kv);
                        }
                        if self.key_seq().contains(key) && key != kv {
                            let j = choose|j: int| 0 <= j < self.key_seq().len() && self.key_seq()[j] == key;
                            assert(old_self.key_seq()[j] == key);
                        }
                    }
                    assert forall|key: Seq<char>| #[trigger] self.view().contains_key(key)
                        implies self.view()[key] == old_self.view().insert(kv, v)[key] by {
                        let j = choose|j: int| 0 <= j < self.key_seq().len() && self.key_seq()[j] == key;
                        assert(self.slots@[j].0@ == key);
                        let p = self.pos(key);
                        self.lemma_pos(p);
                        if p != n {
                            old_self.lemma_pos(p);
                        }
                    }
                    assert(self.view() =~= old_self.view().insert(kv, v));
                }
            },
        }
    }

    /// Removes `k` and returns the value it held, if any.
    pub fn remove(&mut self, k: &str) -> (r: Option<V>)
        requires
            old(self).wf(),
        ensures
            final(self).wf(),
            final(self).view() == old(self).view().remove(k@),
            match r {
                Some(v) => old(self).view().contains_key(k@) && v == old(self).view()[k@],
                None => !old(self).view().contains_key(k@),
            },
    {
        let ghost old_self = *self;
        match self.find(k) {
            Some(i) => {
                proof {
                    old_self.lemma_pos(i as int);
                }
                let (_key, v) = self.slots.remove(i);
                proof {
                    assert(self.key_seq() =~= old_self.key_seq().remove(i as int));
                    assert(old_self.key_seq()[i as int] == k@);
                    assert forall|a: int, b: int|
                        0 <= a < self.key_seq().len() && 0 <= b < self.key_seq().len() && a != b
                        implies self.key_seq()[a] != self.key_seq()[b] by {
                        let a2 = if a < i { a } else { a + 1 };
                        let b2 = if b < i { b } else { b + 1 };
                        assert(old_self.key_seq()[a2] != old_self.key_seq()[b2]);
                    }
                    assert(self.wf());
                    assert forall|key: Seq<char>| #[trigger] self.view().contains_key(key)
                        <==> old_self.view().remove(k@).contains_key(key) by {
                        if self.key_seq().contains(key) {
                            let j = choose|j: int| 0 <= j < self.key_seq().len() && self.key_seq()[j] == key;
                            if j < i as int {
                                assert(old_self.key_seq()[j] == key);
                                assert(old_self.key_seq()[j] != old_self.key_seq()[i as int]);
                            } else {
                                assert(old_self.key_seq()[j + 1] == key);
                                assert(old_self.key_seq()[j + 1] != old_self.key_seq()[i as int]);
                            }
                        }
                        if old_self.key_seq().contains(key) && key != k@ {
                            let j = choose|j: int| 0 <= j < old_self.key_seq().len() && old_self.key_seq()[j] == key;
                            if j < i as int {
                                assert(self.key_seq()[j] == key);
                            } else {
                                assert(self.key_seq()[j - 1] == key);
                            }
                        }
                    }
                    assert forall|key: Seq<char>| #[trigger] self.view().contains_key(key)
                        implies self.view()[key] == old_self.view()[key] by {
                        let j = choose|j: int| 0 <= j < self.key_seq().len() && self.key_seq()[j] == key;
                        assert(self.slots@[j].0@ == key);
                        let p = self.pos(key);
                        self.lemma_pos(p);
                        if p < i as int {
                            old_self.lemma_pos(p);
                        } else {
                            old_self.lemma_pos(p + 1);
                        }
                    }
                    assert(self.view() =~= old_self.view().remove(k@));
                }
                Some(v)
            },
            None => {
                proof {
                    assert(self.view() =~= old_self.view().remove(k@));
                }
                None
            },
        }
    }

    /// All keys, each once, in no particular order.
    pub fn keys(&self) -> (ks: Vec<String>)
        requires
            self.wf(),
        ensures
            string_views(ks@).no_duplicates(),
            string_views(ks@).to_set() == self.view().dom(),
            ks@.len() == self.view().len(),
    {
        proof {
            self.lemma_dom();
        }
        let n = self.slots.len();
        let mut ks: Vec<String> = Vec::new();
        let mut i: usize = 0;
        while i < n
            invariant
                n == self.slots@.len(),
                i <= n,
                ks@.len() == i,
                forall|j: int| 0 <= j < i ==> #[trigger] ks@[j]@ == self.slots@[j].0@,
            decreases n - i,
        {
            ks.push(self.slots[i].0.clone());
            i = i + 1;
        }
        assert(string_views(ks@) =~= self.key_seq());
        ks
    }
}

/// Character-wise equality of two strings.
pub fn str_equal(a: &str, b: &str) -> (eq: bool)
    ensures
        eq == (a@ == b@),
{
    let n = a.unicode_len();
    if n != b.unicode_len() {
        return false;
    }
    let mut i: usize = 0;
    while i < n
        invariant
            n == a@.len(),
            n == b@.len(),
            i <= n,
            forall|j: int| 0 <= j < i ==> a@[j] == b@[j],
        decreases n - i,
    {
        if a.get_char(i) != b.get_char(i) {
            return false;
        }
        i = i + 1;
    }
    assert(a@ =~= b@);
    true
}

} // verus!
