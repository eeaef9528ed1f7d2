use vstd::prelude::*;
use vstd::set_lib::{lemma_int_range, lemma_len_subset, set_int_range};
use crate::util::bits::{fast_hash, spec_fast_hash};
use crate::util::str_list::{StrList, StrListKey, HEADER_LEN};

verus! {

/// A facility for deduplicating strings: each distinct string is stored once, in a
/// [`StrList`], and every request for it yields the same key.
///
/// Backed by an open-addressed hash table with linear probing over the keys of the list.
pub struct StrInterner {
    table: Table,
    str_list: StrList,
    interned: Ghost<Map<Seq<u8>, StrListKey>>,
    slots: Ghost<Map<Seq<u8>, int>>,
}

struct Table {
    arr: Vec<Option<StrListKey>>,
    occupancy: usize,
}

/// Indices of the occupied slots.
spec fn occupied(arr: Seq<Option<StrListKey>>) -> Set<int> {
    Set::new(|i: int| 0 <= i < arr.len() && arr[i] is Some)
}

/// The slot where probing for `s` starts.
spec fn home(s: Seq<u8>, cap: int) -> int {
    spec_fast_hash(s) as int % cap
}

/// The slot `d` steps after `h`, wrapping around.
spec fn probe(h: int, d: int, cap: int) -> int {
    (h + d) % cap
}

/// How many steps lead from `h` to `j`.
spec fn dist(h: int, j: int, cap: int) -> int {
    if h <= j {
        j - h
    } else {
        j + cap - h
    }
}

/// The table holds exactly the keys of `interned`, each at the slot recorded in `slots`, and
/// every slot between a key's home and its own slot is occupied.
spec fn table_wf(
    arr: Seq<Option<StrListKey>>,
    occupancy: int,
    strs: Map<StrListKey, Seq<u8>>,
    interned: Map<Seq<u8>, StrListKey>,
    slots: Map<Seq<u8>, int>,
) -> bool {
    &&& occupancy == occupied(arr).len()
    &&& occupied(arr).finite()
    &&& forall|j: int|
        0 <= j < arr.len() && #[trigger] arr[j] is Some ==> {
            let k = arr[j].unwrap();
            &&& strs.contains_key(k)
            &&& interned.contains_key(strs[k])
            &&& interned[strs[k]] == k
            &&& slots[strs[k]] == j
        }
    &&& forall|s: Seq<u8>| #[trigger]
        interned.contains_key(s) ==> {
            &&& strs.contains_key(interned[s])
            &&& strs[interned[s]] == s
            &&& slots.contains_key(s)
            &&& 0 <= slots[s] < arr.len()
            &&& arr[slots[s]] == Some(interned[s])
        }
    &&& forall|j: int, d: int|
        0 <= j < arr.len() && arr[j] is Some && 0 <= d < dist(
            home(strs[arr[j].unwrap()], arr.len() as int),
            j,
            arr.len() as int,
        ) ==> (#[trigger] arr[probe(home(strs[arr[j].unwrap()], arr.len() as int), d, arr.len() as int)]) is Some
}

proof fn lemma_occupied_bounded(arr: Seq<Option<StrListKey>>)
    ensures
        occupied(arr).finite(),
        occupied(arr).len() <= arr.len(),
        (forall|j: int| 0 <= j < arr.len() ==> #[trigger] arr[j] is Some) ==> occupied(arr).len()
            == arr.len(),
{
    lemma_int_range(0, arr.len() as int);
    lemma_len_subset(occupied(arr), set_int_range(0, arr.len() as int));
    if forall|j: int| 0 <= j < arr.len() ==> #[trigger] arr[j] is Some {
        assert(occupied(arr) =~= set_int_range(0, arr.len() as int));
    }
}

proof fn lemma_probe_covers(h: int, j: int, cap: int)
    requires
        0 <= h < cap,
        0 <= j < cap,
    ensures
        0 <= dist(h, j, cap) < cap,
        probe(h, dist(h, j, cap), cap) == j,
{
    if h <= j {
        assert((h + (j - h)) % cap == j) by (nonlinear_arith)
            requires
                0 <= j < cap,
                h <= j,
        ;
    } else {
        assert((h + (j + cap - h)) % cap == j) by (nonlinear_arith)
            requires
                0 <= j < cap,
        ;
    }
}

proof fn lemma_probe_step(h: int, d: int, cap: int)
    requires
        0 <= h < cap,
        0 <= d < cap,
    ensures
        0 <= probe(h, d, cap) < cap,
        dist(h, probe(h, d, cap), cap) == d,
        h + d < cap ==> probe(h, d, cap) == h + d,
        h + d >= cap ==> probe(h, d, cap) == h + d - cap,
{
    if h + d < cap {
        assert((h + d) % cap == h + d) by (nonlinear_arith)
            requires
                0 <= h + d < cap,
        ;
    } else {
        assert((h + d) % cap == h + d - cap) by (nonlinear_arith)
            requires
                cap <= h + d < 2 * cap,
        ;
    }
}

/// Byte-wise equality of two slices.
fn bytes_eq(a: &[u8], b: &[u8]) -> (r: bool)
    ensures
        r == (a@ == b@),
{
    if a.len() != b.len() {
        return false;
    }
    let mut i: usize = 0;
    while i < a.len()
        invariant
            i <= a@.len(),
            a@.len() == b@.len(),
            forall|j: int| 0 <= j < i ==> a@[j] == b@[j],
        decreases a@.len() - i,
    {
        if a[i] != b[i] {
            return false;
        }
        i = i + 1;
    }
    assert(a@ =~= b@);
    true
}

/// The slot `d` steps after `h` in a table of `cap` slots.
fn probe_index(h: usize, d: usize, cap: usize) -> (r: usize)
    requires
        h < cap,
        d < cap,
    ensures
        r == probe(h as int, d as int, cap as int),
        r < cap,
{
    proof {
        lemma_probe_step(h as int, d as int, cap as int);
    }
    if d < cap - h {
        h + d
    } else {
        d - (cap - h)
    }
}

/// Finds the key under which `s` is stored, if any.
#[verifier::rlimit(30)]
fn lookup(
    table: &Table,
    str_list: &StrList,
    s: &[u8],
    interned: Ghost<Map<Seq<u8>, StrListKey>>,
    slots: Ghost<Map<Seq<u8>, int>>,
) -> (r: Option<StrListKey>)
    requires
        str_list.wf(),
        table_wf(table.arr@, table.occupancy as int, str_list@, interned@, slots@),
    ensures
        r == (if interned@.contains_key(s@) {
            Some(interned@[s@])
        } else {
            None::<StrListKey>
        }),
{
    let cap = table.arr.len();
    if cap == 0 {
        proof {
            if interned@.contains_key(s@) {
                assert(0 <= slots@[s@] < 0);
            }
        }
        return None;
    }
    let h = fast_hash(s) % cap;
    let mut d: usize = 0;
    while d < cap
        invariant
            cap == table.arr@.len(),
            h == home(s@, cap as int),
            0 <= h < cap,
            d <= cap,
            str_list.wf(),
            table_wf(table.arr@, table.occupancy as int, str_list@, interned@, slots@),
            forall|e: int|
                0 <= e < d ==> (#[trigger] table.arr@[probe(h as int, e, cap as int)]) is Some
                    && str_list@[table.arr@[probe(h as int, e, cap as int)].unwrap()] != s@,
        decreases cap - d,
    {
        let idx = probe_index(h, d, cap);
        match table.arr[idx] {
            None => {
                proof {
                    if interned@.contains_key(s@) {
                        let j = slots@[s@];
                        lemma_probe_covers(h as int, j, cap as int);
                        let dd = dist(h as int, j, cap as int);
                        assert(table.arr@[j] is Some);
                        assert(str_list@[table.arr@[j].unwrap()] == s@);
                        if dd < d {
                            assert(table.arr@[probe(h as int, dd, cap as int)] is Some);
                        } else if dd > d {
                            assert(table.arr@[probe(h as int, d as int, cap as int)] is Some);
                        }
                    }
                }
                return None;
            },
            Some(k) => {
                let t = str_list.get(k);
                if bytes_eq(t, s) {
                    return Some(k);
                }
            },
        }
        d = d + 1;
    }
    proof {
        if interned@.contains_key(s@) {
            let j = slots@[s@];
            lemma_probe_covers(h as int, j, cap as int);
            let dd = dist(h as int, j, cap as int);
            assert(table.arr@[probe(h as int, dd, cap as int)] is Some);
        }
    }
    None
}

/// Places `key`, the key of a string not yet in the table, in the first free slot along
/// its probe sequence.
#[verifier::rlimit(30)]
fn insert(
    table: &mut Table,
    str_list: &StrList,
    key: StrListKey,
    interned: Ghost<Map<Seq<u8>, StrListKey>>,
    slots: Ghost<Map<Seq<u8>, int>>,
) -> (new_slots: Ghost<Map<Seq<u8>, int>>)
    requires
        str_list.wf(),
        str_list@.contains_key(key),
        !interned@.contains_key(str_list@[key]),
        table_wf(old(table).arr@, old(table).occupancy as int, str_list@, interned@, slots@),
        old(table).occupancy < old(table).arr@.len(),
    ensures
        table_wf(
            final(table).arr@,
            final(table).occupancy as int,
            str_list@,
            interned@.insert(str_list@[key], key),
            new_slots@,
        ),
        final(table).arr@.len() == old(table).arr@.len(),
        final(table).occupancy == old(table).occupancy + 1,
{
    let ghost s = str_list@[key];
    let cap = table.arr.len();
    let h = fast_hash(str_list.get(key)) % cap;
    let mut d: usize = 0;
    while d < cap
        invariant
            cap == table.arr@.len(),
            h == home(s, cap as int),
            0 <= h < cap,
            d <= cap,
            table.arr@ == old(table).arr@,
            table.occupancy == old(table).occupancy,
            table.occupancy < cap,
            str_list.wf(),
            str_list@.contains_key(key),
            s == str_list@[key],
            !interned@.contains_key(s),
            table_wf(table.arr@, table.occupancy as int, str_list@, interned@, slots@),
            forall|e: int| 0 <= e < d ==> (#[trigger] table.arr@[probe(h as int, e, cap as int)]) is Some,
        decreases cap - d,
    {
        let idx = probe_index(h, d, cap);
        if table.arr[idx].is_none() {
            let ghost old_arr = table.arr@;
            table.arr.set(idx, Some(key));
            table.occupancy = table.occupancy + 1;
            let ghost ns = slots@.insert(s, idx as int);
            proof {
                let arr = table.arr@;
                let ni = interned@.insert(s, key);
                lemma_occupied_bounded(old_arr);
                assert(occupied(arr) =~= occupied(old_arr).insert(idx as int));
                assert(!occupied(old_arr).contains(idx as int));
                lemma_probe_step(h as int, d as int, cap as int);
                assert forall|j: int|
                    0 <= j < arr.len() && #[trigger] arr[j] is Some implies {
                        let k = arr[j].unwrap();
                        &&& str_list@.contains_key(k)
                        &&& ni.contains_key(str_list@[k])
                        &&& ni[str_list@[k]] == k
                        &&& ns[str_list@[k]] == j
                    } by {
                    if j != idx {
                        assert(old_arr[j] is Some);
                        assert(interned@.contains_key(str_list@[old_arr[j].unwrap()]));
                        assert(str_list@[old_arr[j].unwrap()] != s);
                    }
                }
                assert forall|j: int, e: int|
                    0 <= j < arr.len() && arr[j] is Some && 0 <= e < dist(
                        home(str_list@[arr[j].unwrap()], cap as int),
                        j,
                        cap as int,
                    ) implies (#[trigger] arr[probe(
                    home(str_list@[arr[j].unwrap()], cap as int),
                    e,
                    cap as int,
                )]) is Some by {
                    if j == idx {
                        assert(old_arr[probe(h as int, e, cap as int)] is Some);
                    } else {
                        assert(old_arr[j] is Some);
                        let hj = home(str_list@[arr[j].unwrap()], cap as int);
                        assert(old_arr[probe(hj, e, cap as int)] is Some);
                    }
                }
            }
            return Ghost(ns);
        }
        d = d + 1;
    }
    proof {
        assert forall|j: int| 0 <= j < cap implies #[trigger] table.arr@[j] is Some by {
            lemma_probe_covers(h as int, j, cap as int);
            assert(table.arr@[probe(h as int, dist(h as int, j, cap as int), cap as int)] is Some);
        }
        lemma_occupied_bounded(table.arr@);
    }
    Ghost(slots@)
}

/// Rebuilds the table with twice the capacity (at least two slots).
#[verifier::rlimit(30)]
fn grow_table(
    table: &mut Table,
    str_list: &StrList,
    interned: Ghost<Map<Seq<u8>, StrListKey>>,
    slots: Ghost<Map<Seq<u8>, int>>,
) -> (new_slots: Ghost<Map<Seq<u8>, int>>)
    requires
        str_list.wf(),
        table_wf(old(table).arr@, old(table).occupancy as int, str_list@, interned@, slots@),
        old(table).arr@.len() < 0x4000_0000,
    ensures
        table_wf(final(table).arr@, final(table).occupancy as int, str_list@, interned@, new_slots@),
        final(table).arr@.len() == 2 * (if old(table).arr@.len() == 0 {
            1
        } else {
            old(table).arr@.len() as int
        }),
        final(table).occupancy == old(table).occupancy,
{
    let old_cap = table.arr.len();
    let new_cap: usize = if old_cap == 0 {
        2
    } else {
        old_cap * 2
    };
    let mut arr: Vec<Option<StrListKey>> = Vec::new();
    let mut i: usize = 0;
    while i < new_cap
        invariant
            i <= new_cap,
            arr@.len() == i,
            forall|j: int| 0 <= j < i ==> arr@[j] is None,
        decreases new_cap - i,
    {
        arr.push(None);
        i = i + 1;
    }
    let mut new_table = Table { arr, occupancy: 0 };
    proof {
        assert(occupied(new_table.arr@) =~= Set::empty());
    }
    let ghost mut done: Map<Seq<u8>, StrListKey> = Map::empty();
    let ghost mut new_slots: Map<Seq<u8>, int> = Map::empty();
    let ghost src = table.arr@;
    proof {
        lemma_occupied_bounded(src);
        assert(Set::new(|i: int| 0 <= i < 0 && src[i] is Some) =~= Set::<int>::empty());
    }
    let mut j: usize = 0;
    while j < old_cap
        invariant
            old_cap == src.len(),
            j <= old_cap,
            src == table.arr@,
            str_list.wf(),
            table_wf(src, table.occupancy as int, str_list@, interned@, slots@),
            new_table.arr@.len() == new_cap,
            new_cap == 2 * (if old_cap == 0 { 1 } else { old_cap as int }),
            table_wf(new_table.arr@, new_table.occupancy as int, str_list@, done, new_slots),
            forall|s: Seq<u8>|
                #[trigger] done.contains_key(s) <==> (interned@.contains_key(s) && slots@[s] < j),
            forall|s: Seq<u8>| #[trigger] done.contains_key(s) ==> done[s] == interned@[s],
            occupied(src).finite(),
            occupied(src).len() <= old_cap,
            new_table.occupancy == Set::new(|i: int| 0 <= i < j && src[i] is Some).len(),
            Set::new(|i: int| 0 <= i < j && src[i] is Some).finite(),
        decreases old_cap - j,
    {
        let ghost before = Set::new(|i: int| 0 <= i < j && src[i] is Some);
        let ghost after = Set::new(|i: int| 0 <= i < j + 1 && src[i] is Some);
        proof {
            assert(before.subset_of(occupied(src)));
            lemma_len_subset(before, occupied(src));
        }
        match table.arr[j] {
            Some(k) => {
                let ghost s = str_list@[k];
                proof {
                    assert(src[j as int] is Some);
                    assert(!done.contains_key(s));
                }
                let ns = insert(&mut new_table, str_list, k, Ghost(done), Ghost(new_slots));
                proof {
                    new_slots = ns@;
                    done = done.insert(s, k);
                    assert(after =~= before.insert(j as int));
                    assert forall|t: Seq<u8>|
                        #[trigger] done.contains_key(t) <==> (interned@.contains_key(t) && slots@[t]
                            < j + 1) by {
                        if interned@.contains_key(t) && slots@[t] == j {
                            assert(src[j as int] == Some(interned@[t]));
                            assert(t == s);
                        }
                    }
                }
            },
            None => {
                proof {
                    assert(after =~= before);
                    assert forall|t: Seq<u8>|
                        #[trigger] done.contains_key(t) <==> (interned@.contains_key(t) && slots@[t]
                            < j + 1) by {
                        if interned@.contains_key(t) && slots@[t] == j {
                            assert(src[j as int] == Some(interned@[t]));
                        }
                    }
                }
            },
        }
        j = j + 1;
    }
    proof {
        assert(done =~= interned@);
        assert(Set::new(|i: int| 0 <= i < j && src[i] is Some) =~= occupied(src));
    }
    *table = new_table;
    Ghost(new_slots)
}

impl View for StrInterner {
    type V = Map<Seq<u8>, StrListKey>;

    /// The interned strings, with their keys.
    closed spec fn view(&self) -> Map<Seq<u8>, StrListKey> {
        self.interned@
    }
}

impl StrInterner {
    /// The strings stored by the interner, by key.
    pub closed spec fn strs(&self) -> Map<StrListKey, Seq<u8>> {
        self.str_list@
    }

    /// Number of bytes the stored strings occupy.
    pub closed spec fn byte_len(&self) -> nat {
        self.str_list.byte_len()
    }

    pub closed spec fn wf(&self) -> bool {
        &&& self.str_list.wf()
        &&& table_wf(
            self.table.arr@,
            self.table.occupancy as int,
            self.str_list@,
            self.interned@,
            self.slots@,
        )
        &&& self.table.arr@.len() <= 4 * self.table.occupancy + 2
        &&& HEADER_LEN * self.table.occupancy <= self.str_list.byte_len()
        &&& forall|s: Seq<u8>| #[trigger]
            self.interned@.contains_key(s) ==> self.str_list@.contains_key(self.interned@[s])
                && self.str_list@[self.interned@[s]] == s
    }

    /// The interner's key for `s` names `s` in its string list.
    pub proof fn lemma_key_names_string(&self, s: Seq<u8>)
        requires
            self.wf(),
            self@.contains_key(s),
        ensures
            self.strs().contains_key(self@[s]),
            self.strs()[self@[s]] == s,
    {
    }

    pub fn new() -> (r: Self)
        ensures
            r.wf(),
            r@ == Map::<Seq<u8>, StrListKey>::empty(),
            r.strs() == Map::<StrListKey, Seq<u8>>::empty(),
            r.byte_len() == 0,
    {
        let r = StrInterner {
            table: Table { arr: Vec::new(), occupancy: 0 },
            str_list: StrList::new(),
            interned: Ghost(Map::empty()),
            slots: Ghost(Map::empty()),
        };
        proof {
            assert(occupied(r.table.arr@) =~= Set::empty());
        }
        r
    }

    /// Returns the unique key of `s`, storing `s` first if it was not interned yet.
    #[verifier::rlimit(30)]
    pub fn intern(&mut self, s: &[u8]) -> (r: StrListKey)
        requires
            old(self).wf(),
            old(self)@.contains_key(s@) || old(self).byte_len() + HEADER_LEN + s@.len() < u32::MAX,
        ensures
            final(self).wf(),
            final(self)@ == old(self)@.insert(s@, r),
            final(self).strs().contains_key(r),
            final(self).strs()[r] == s@,
            old(self)@.contains_key(s@) ==> r == old(self)@[s@],
            old(self)@.contains_key(s@) ==> final(self).strs() == old(self).strs(),
            old(self)@.contains_key(s@) ==> final(self).byte_len() == old(self).byte_len(),
            !old(self)@.contains_key(s@) ==> !old(self).strs().contains_key(r),
            !old(self)@.contains_key(s@) ==> final(self).strs() == old(self).strs().insert(r, s@),
            !old(self)@.contains_key(s@) ==> final(self).byte_len() == old(self).byte_len()
                + HEADER_LEN + s@.len(),
            1 <= r <= old(self).byte_len() + 1,
    {
        let found = lookup(&self.table, &self.str_list, s, self.interned, self.slots);
        if let Some(k) = found {
            proof {
                self.str_list.lemma_keys_bounded(k);
                assert(self.interned@.insert(s@, k) =~= self.interned@);
            }
            return k;
        }
        let ghost old_self = *self;
        proof {
            lemma_occupied_bounded(self.table.arr@);
        }
        if 4 * (self.table.occupancy as u64) >= 3 * (self.table.arr.len() as u64) {
            let ns = grow_table(&mut self.table, &self.str_list, self.interned, self.slots);
            self.slots = ns;
        }
        proof {
            lemma_occupied_bounded(self.table.arr@);
        }
        let key = self.str_list.push(s);
        proof {
            assert forall|j: int|
                0 <= j < self.table.arr@.len() && #[trigger] self.table.arr@[j] is Some implies {
                    let k = self.table.arr@[j].unwrap();
                    &&& self.str_list@.contains_key(k)
                    &&& self.str_list@[k] == old_self.str_list@[k]
                } by {
                let k = self.table.arr@[j].unwrap();
                assert(old_self.str_list@.contains_key(k));
            }
            assert forall|j: int, d: int|
                0 <= j < self.table.arr@.len() && self.table.arr@[j] is Some && 0 <= d < dist(
                    home(self.str_list@[self.table.arr@[j].unwrap()], self.table.arr@.len() as int),
                    j,
                    self.table.arr@.len() as int,
                ) implies (#[trigger] self.table.arr@[probe(
                home(self.str_list@[self.table.arr@[j].unwrap()], self.table.arr@.len() as int),
                d,
                self.table.arr@.len() as int,
            )]) is Some by {
                let k = self.table.arr@[j].unwrap();
                assert(old_self.str_list@.contains_key(k));
                assert(self.str_list@[k] == old_self.str_list@[k]);
            }
            assert(table_wf(
                self.table.arr@,
                self.table.occupancy as int,
                self.str_list@,
                self.interned@,
                self.slots@,
            ));
        }
        let ns = insert(&mut self.table, &self.str_list, key, self.interned, self.slots);
        self.slots = ns;
        proof {
            self.interned@ = self.interned@.insert(s@, key);
        }
        key
    }

    /// The list that holds the interned strings.
    pub fn str_list(&self) -> (r: &StrList)
        requires
            self.wf(),
        ensures
            r.wf(),
            r@ == self.strs(),
    {
        &self.str_list
    }
}

impl Default for StrInterner {
    fn default() -> (r: Self)
        ensures
            r.wf(),
            r@ == Map::<Seq<u8>, StrListKey>::empty(),
            r.strs() == Map::<StrListKey, Seq<u8>>::empty(),
            r.byte_len() == 0,
    {
        StrInterner::new()
    }
}

/// Interning gives equal keys to equal strings and different keys to different strings.
pub proof fn lemma_intern_unique(interner: &StrInterner, s: Seq<u8>, t: Seq<u8>)
    requires
        interner.wf(),
        interner@.contains_key(s),
        interner@.contains_key(t),
    ensures
        (interner@[s] == interner@[t]) <==> (s == t),
{
    interner.lemma_key_names_string(s);
    interner.lemma_key_names_string(t);
}

/// Interning the same string twice returns the same key both times, and the second call leaves
/// the interner as the first one left it. The requirements are the contract of
/// [`StrInterner::intern`] for each of the two calls.
pub proof fn lemma_intern_idempotent(
    first: &StrInterner,
    second: &StrInterner,
    third: &StrInterner,
    s: Seq<u8>,
    k1: StrListKey,
    k2: StrListKey,
)
    requires
        first.wf(),
        second.wf(),
        second@ == first@.insert(s, k1),
        first@.contains_key(s) ==> k1 == first@[s],
        third@ == second@.insert(s, k2),
        second@.contains_key(s) ==> k2 == second@[s],
    ensures
        k2 == k1,
        third@ == second@,
{
    assert(second@.contains_key(s));
    assert(third@ =~= second@);
}

} // verus!
