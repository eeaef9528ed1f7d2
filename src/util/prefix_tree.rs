use vstd::prelude::*;

verus! {

/// A prefix tree over byte sequences. Each node keeps its children in a table keyed by the next
/// byte.
pub struct PrefixTree<V> {
    table: Table<V>,
    value: Option<V>,
}

struct Table<V> {
    table: Vec<TableEntry<V>>,
}

struct TableEntry<V> {
    key: u8,
    value: PrefixTree<V>,
}

/// Index of the first entry whose key is `k`, if any.
spec fn first_with_key<V>(entries: Seq<TableEntry<V>>, k: u8) -> Option<int> {
    if exists|i: int| 0 <= i < entries.len() && entries[i].key == k {
        Some(
            choose|i: int|
                0 <= i < entries.len() && entries[i].key == k && forall|j: int|
                    0 <= j < i ==> entries[j].key != k,
        )
    } else {
        None
    }
}

proof fn lemma_first_with_key<V>(entries: Seq<TableEntry<V>>, k: u8)
    ensures
        first_with_key(entries, k) matches Some(i) ==> 0 <= i < entries.len() && entries[i].key == k
            && forall|j: int| 0 <= j < i ==> entries[j].key != k,
        first_with_key(entries, k) is None ==> forall|j: int|
            0 <= j < entries.len() ==> entries[j].key != k,
{
    if exists|i: int| 0 <= i < entries.len() && entries[i].key == k {
        let w = choose|i: int| 0 <= i < entries.len() && entries[i].key == k;
        lemma_least_index(entries, k, w);
    }
}

/// Tables whose keys agree, the longer one holding `k` nowhere past the shorter one, find the
/// same first entry for `k`.
proof fn lemma_first_same<V>(a: Seq<TableEntry<V>>, b: Seq<TableEntry<V>>, k: u8)
    requires
        a.len() <= b.len(),
        forall|x: int| 0 <= x < a.len() ==> a[x].key == b[x].key,
        forall|x: int| a.len() <= x < b.len() ==> b[x].key != k,
    ensures
        first_with_key(a, k) == first_with_key(b, k),
{
    lemma_first_with_key(a, k);
    lemma_first_with_key(b, k);
    match first_with_key(a, k) {
        Some(i) => {
            match first_with_key(b, k) {
                Some(i2) => {
                    if i < i2 {
                        assert(b[i].key == k);
                    } else if i2 < i {
                        assert(a[i2].key == k);
                    }
                },
                None => {
                    assert(b[i].key == k);
                },
            }
        },
        None => {
            match first_with_key(b, k) {
                Some(i2) => {
                    assert(a[i2].key == k);
                },
                None => {},
            }
        },
    }
}

proof fn lemma_least_index<V>(entries: Seq<TableEntry<V>>, k: u8, w: int)
    requires
        0 <= w < entries.len(),
        entries[w].key == k,
    ensures
        exists|i: int|
            0 <= i < entries.len() && entries[i].key == k && forall|j: int|
                0 <= j < i ==> entries[j].key != k,
    decreases w,
{
    if exists|j: int| 0 <= j < w && entries[j].key == k {
        let v = choose|j: int| 0 <= j < w && entries[j].key == k;
        lemma_least_index(entries, k, v);
    } else {
        assert(forall|j: int| 0 <= j < w ==> entries[j].key != k);
    }
}

impl<V> PrefixTree<V> {
    /// The child reached by byte `k`.
    pub closed spec fn child(&self, k: u8) -> Option<PrefixTree<V>> {
        match first_with_key(self.table.table@, k) {
            Some(i) => Some(self.table.table@[i].value),
            None => None,
        }
    }

    /// The value stored at exactly `s`.
    pub closed spec fn lookup(&self, s: Seq<u8>) -> Option<V>
        decreases s.len(),
    {
        if s.len() == 0 {
            self.value
        } else {
            match self.child(s[0]) {
                Some(c) => c.lookup(s.drop_first()),
                None => None,
            }
        }
    }

    /// The value stored at the longest prefix of `s` no longer than `n` that holds one.
    pub open spec fn longest(&self, s: Seq<u8>, n: int) -> Option<V>
        decreases n,
    {
        if n < 0 || n > s.len() {
            None
        } else if self.lookup(s.take(n)) is Some {
            self.lookup(s.take(n))
        } else if n == 0 {
            None
        } else {
            self.longest(s, n - 1)
        }
    }

    /// The value stored at the longest prefix of `s` that holds one.
    pub open spec fn longest_match(&self, s: Seq<u8>) -> Option<V> {
        self.longest(s, s.len() as int)
    }

    pub fn new() -> (r: Self)
        ensures
            forall|s: Seq<u8>| #[trigger] r.lookup(s) is None,
    {
        let r = PrefixTree { table: Table { table: Vec::new() }, value: None };
        assert forall|s: Seq<u8>| #[trigger] r.lookup(s) is None by {
            if s.len() > 0 {
                lemma_first_with_key(r.table.table@, s[0]);
            }
        }
        r
    }

    /// Looking up a non-empty sequence descends into the child of its first byte.
    proof fn lemma_lookup_child(&self, s: Seq<u8>, k: int)
        requires
            1 <= k <= s.len(),
        ensures
            self.lookup(s.take(k)) == match self.child(s[0]) {
                Some(c) => c.lookup(s.drop_first().take(k - 1)),
                None => None,
            },
    {
        assert(s.take(k)[0] == s[0]);
        assert(s.take(k).drop_first() =~= s.drop_first().take(k - 1));
    }

    /// The longest match below a node is the child's longest match, or the node's own value.
    proof fn lemma_longest_step(&self, s: Seq<u8>, n: int)
        requires
            1 <= n <= s.len(),
        ensures
            self.longest(s, n) == match self.child(s[0]) {
                Some(c) => if c.longest(s.drop_first(), n - 1) is Some {
                    c.longest(s.drop_first(), n - 1)
                } else {
                    self.value
                },
                None => self.value,
            },
        decreases n,
    {
        self.lemma_lookup_child(s, n);
        assert(s.take(0) =~= Seq::<u8>::empty());
        assert(s.drop_first().take(0) =~= Seq::<u8>::empty());
        if n > 1 {
            self.lemma_longest_step(s, n - 1);
        } else {
            self.lemma_lookup_child(s, 1);
        }
    }

    #[verifier::rlimit(60)]
    fn get_from(&self, seq: &[u8], i: usize) -> (r: Option<&V>)
        requires
            i <= seq@.len(),
        ensures
            match r {
                Some(v) => Some(*v),
                None => None,
            } == self.longest_match(seq@.subrange(i as int, seq@.len() as int)),
        decreases seq@.len() - i,
    {
        let ghost s = seq@.subrange(i as int, seq@.len() as int);
        if i < seq.len() {
            let ghost rest = seq@.subrange(i + 1, seq@.len() as int);
            proof {
                self.lemma_longest_step(s, s.len() as int);
                assert(s.drop_first() =~= rest);
                assert(s[0] == seq@[i as int]);
            }
            let next_key = seq[i];
            let child = self.table.get(next_key);
            proof {
                assert(self.child(next_key) == match child {
                    Some(c) => Some(*c),
                    None => None::<PrefixTree<V>>,
                });
            }
            if let Some(next_child) = child {
                let longer = next_child.get_from(seq, i + 1);
                if let Some(longer_match) = longer {
                    return Some(longer_match);
                }
            }
        } else {
            assert(s.take(0) =~= s);
        }
        match &self.value {
            Some(v) => Some(v),
            None => None,
        }
    }

    /// The value stored at the longest prefix of `seq` that holds one.
    pub fn get(&self, seq: &[u8]) -> (r: Option<&V>)
        ensures
            match r {
                Some(v) => Some(*v),
                None => None,
            } == self.longest_match(seq@),
    {
        assert(seq@.subrange(0, seq@.len() as int) =~= seq@);
        self.get_from(seq, 0)
    }

    /// Stores `value` at the rest of `seq` from index `i`, returning what was stored there.
    #[verifier::rlimit(100)]
    pub fn insert_iter(&mut self, seq: &[u8], i: usize, value: V) -> (r: Option<V>)
        requires
            i <= seq@.len(),
        ensures
            r == old(self).lookup(seq@.subrange(i as int, seq@.len() as int)),
            forall|t: Seq<u8>| #[trigger]
                final(self).lookup(t) == if t == seq@.subrange(i as int, seq@.len() as int) {
                    Some(value)
                } else {
                    old(self).lookup(t)
                },
        decreases seq@.len() - i,
    {
        let ghost s = seq@.subrange(i as int, seq@.len() as int);
        if i == seq.len() {
            let prev = self.value.take();
            self.value = Some(value);
            proof {
                assert(s.len() == 0);
                lemma_set_value(old(self), self, value);
                assert(s =~= Seq::<u8>::empty());
            }
            return prev;
        }
        let key = seq[i];
        proof {
            assert(s[0] == key);
            assert(s.drop_first() =~= seq@.subrange(i + 1, seq@.len() as int));
        }
        let j = self.table.entry(key);
        let ghost t1 = self.table.table@;
        let mut entry = self.table.table.remove(j);
        let ghost pre = entry.value;
        assert(entry == t1[j as int]);
        let prev = entry.value.insert_iter(seq, i + 1, value);
        self.table.table.insert(j, entry);
        proof {
            let es = self.table.table@;
            let ot = old(self).table.table@;
            assert(es =~= t1.update(j as int, entry));
            assert(es[j as int].key == key);
            assert(forall|x: int| 0 <= x < ot.len() && x != j ==> es[x] == ot[x]);
            assert(forall|x: int| 0 <= x < ot.len() ==> es[x].key == ot[x].key);
            lemma_reinsert(old(self), self, key, j as int, pre, s, value);
        }
        prev
    }

    /// Stores `value` at `seq`, returning what was stored there.
    pub fn insert_seq(&mut self, seq: &[u8], value: V) -> (r: Option<V>)
        ensures
            r == old(self).lookup(seq@),
            forall|t: Seq<u8>| #[trigger]
                final(self).lookup(t) == if t == seq@ {
                    Some(value)
                } else {
                    old(self).lookup(t)
                },
    {
        assert(seq@.subrange(0, seq@.len() as int) =~= seq@);
        self.insert_iter(seq, 0, value)
    }
}

/// Setting the value of the root stores it at the empty sequence only.
proof fn lemma_set_value<V>(old_t: &PrefixTree<V>, new_t: &PrefixTree<V>, value: V)
    requires
        new_t.table == old_t.table,
        new_t.value == Some(value),
    ensures
        forall|t: Seq<u8>| #[trigger]
            new_t.lookup(t) == if t == Seq::<u8>::empty() {
                Some(value)
            } else {
                old_t.lookup(t)
            },
{
    assert forall|t: Seq<u8>| #[trigger]
        new_t.lookup(t) == if t == Seq::<u8>::empty() {
            Some(value)
        } else {
            old_t.lookup(t)
        } by {
        if t.len() > 0 {
            assert(new_t.child(t[0]) == old_t.child(t[0]));
        } else {
            assert(t =~= Seq::<u8>::empty());
        }
    }
}

/// Putting back, at index `j`, the child for `key` after storing `value` at the rest of `s`
/// stores `value` at `s` in the parent.
#[verifier::rlimit(40)]
proof fn lemma_reinsert<V>(
    old_t: &PrefixTree<V>,
    new_t: &PrefixTree<V>,
    key: u8,
    j: int,
    pre: PrefixTree<V>,
    s: Seq<u8>,
    value: V,
)
    requires
        s.len() > 0,
        s[0] == key,
        new_t.value == old_t.value,
        0 <= j < new_t.table.table@.len(),
        new_t.table.table@[j].key == key,
        new_t.table.table@.len() == old_t.table.table@.len() || (j == old_t.table.table@.len()
            && new_t.table.table@.len() == j + 1),
        forall|x: int|
            0 <= x < old_t.table.table@.len() && x != j ==> new_t.table.table@[x]
                == old_t.table.table@[x],
        forall|x: int|
            0 <= x < old_t.table.table@.len() ==> new_t.table.table@[x].key
                == old_t.table.table@[x].key,
        j < old_t.table.table@.len() ==> first_with_key(old_t.table.table@, key) == Some(j) && pre
            == old_t.table.table@[j].value,
        j == old_t.table.table@.len() ==> first_with_key(old_t.table.table@, key) is None && forall|
            t: Seq<u8>,
        | #[trigger] pre.lookup(t) is None,
        forall|t: Seq<u8>| #[trigger]
            new_t.table.table@[j].value.lookup(t) == if t == s.drop_first() {
                Some(value)
            } else {
                pre.lookup(t)
            },
    ensures
        forall|t: Seq<u8>| #[trigger]
            new_t.lookup(t) == if t == s {
                Some(value)
            } else {
                old_t.lookup(t)
            },
{
    let es = new_t.table.table@;
    let ot = old_t.table.table@;
    assert forall|t: Seq<u8>| #[trigger]
        new_t.lookup(t) == if t == s {
            Some(value)
        } else {
            old_t.lookup(t)
        } by {
        if t.len() > 0 {
            let k = t[0];
            lemma_first_with_key(ot, k);
            lemma_first_with_key(es, k);
            if es.len() == ot.len() || k != key {
                lemma_first_same(ot, es, k);
            }
            if k == key {
                assert(first_with_key(es, key) == Some(j)) by {
                    if es.len() != ot.len() {
                        match first_with_key(es, key) {
                            Some(x) => {
                                if x < j {
                                    assert(ot[x].key == key);
                                }
                            },
                            None => {},
                        }
                    }
                }
                assert(new_t.child(key) == Some(es[j].value));
                assert(new_t.lookup(t) == es[j].value.lookup(t.drop_first()));
                if t == s {
                    assert(t.drop_first() == s.drop_first());
                    assert(new_t.lookup(t) == Some(value));
                }
                if t != s {
                    assert(t.drop_first() != s.drop_first()) by {
                        if t.drop_first() == s.drop_first() {
                            assert(t =~= seq![k] + t.drop_first());
                            assert(s =~= seq![key] + s.drop_first());
                        }
                    }
                    assert(pre.lookup(t.drop_first()) == old_t.lookup(t));
                    assert(new_t.lookup(t) == old_t.lookup(t));
                }
            } else {
                match first_with_key(ot, k) {
                    Some(x) => {
                        assert(es[x] == ot[x]);
                    },
                    None => {},
                }
                assert(new_t.child(k) == old_t.child(k));
                assert(t != s);
                assert(new_t.lookup(t) == old_t.lookup(t));
            }
        } else {
            assert(t != s);
            assert(new_t.lookup(t) == old_t.lookup(t));
        }
    }
}

impl<V> Table<V> {
    fn get(&self, key: u8) -> (r: Option<&PrefixTree<V>>)
        ensures
            match r {
                Some(c) => Some(*c),
                None => None,
            } == match first_with_key(self.table@, key) {
                Some(i) => Some(self.table@[i].value),
                None => None,
            },
    {
        proof {
            lemma_first_with_key(self.table@, key);
        }
        let mut i: usize = 0;
        while i < self.table.len()
            invariant
                i <= self.table@.len(),
                forall|j: int| 0 <= j < i ==> self.table@[j].key != key,
            decreases self.table@.len() - i,
        {
            if self.table[i].key == key {
                proof {
                    lemma_first_with_key(self.table@, key);
                }
                return Some(&self.table[i].value);
            }
            i = i + 1;
        }
        None
    }

    /// Index of the child for `key`, added (empty) if there was none. Other children keep their
    /// positions, and the first entry with `key` sits at the returned index.
    fn entry(&mut self, key: u8) -> (r: usize)
        ensures
            r < final(self).table@.len(),
            first_with_key(final(self).table@, key) == Some(r as int),
            final(self).table@[r as int].key == key,
            match first_with_key(old(self).table@, key) {
                Some(i) => i == r && final(self).table@ == old(self).table@,
                None => r == old(self).table@.len() && final(self).table@ == old(self).table@.push(
                    TableEntry { key, value: final(self).table@[r as int].value },
                ) && forall|s: Seq<u8>| #[trigger] final(self).table@[r as int].value.lookup(s) is None,
            },
    {
        proof {
            lemma_first_with_key(self.table@, key);
        }
        let mut i: usize = 0;
        while i < self.table.len()
            invariant
                i <= self.table@.len(),
                self.table@ == old(self).table@,
                forall|j: int| 0 <= j < i ==> self.table@[j].key != key,
            decreases self.table@.len() - i,
        {
            if self.table[i].key == key {
                proof {
                    lemma_first_with_key(self.table@, key);
                }
                return i;
            }
            i = i + 1;
        }
        let node = PrefixTree::new();
        self.table.push(TableEntry { key, value: node });
        proof {
            lemma_first_with_key(self.table@, key);
        }
        i
    }
}

impl<V> Default for PrefixTree<V> {
    fn default() -> (r: Self)
        ensures
            forall|s: Seq<u8>| #[trigger] r.lookup(s) is None,
    {
        PrefixTree::new()
    }
}

} // verus!
