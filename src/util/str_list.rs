use vstd::prelude::*;
use vstd::slice::slice_subrange;
use crate::util::misc::shrink_vec;

verus! {

/// Position of a string in a [`StrList`]: the length of the list before the string was pushed,
/// plus one. Never zero.
pub type StrListKey = u32;

/// Width in bytes of the length header that precedes each string.
pub const HEADER_LEN: usize = 8;

/// The length header of a string: its length as eight little-endian bytes.
pub open spec fn header_bytes(n: u64) -> Seq<u8> {
    seq![
        n as u8,
        (n >> 8u64) as u8,
        (n >> 16u64) as u8,
        (n >> 24u64) as u8,
        (n >> 32u64) as u8,
        (n >> 40u64) as u8,
        (n >> 48u64) as u8,
        (n >> 56u64) as u8,
    ]
}

/// A list of strings of heterogeneous lengths arranged contiguously in memory.
///
/// Each string is stored behind a length header; its key is the offset of the header plus one.
/// The list only grows, so every key stays valid for the lifetime of the list.
pub struct StrList {
    bytes: Vec<u8>,
    strs: Ghost<Map<StrListKey, Seq<u8>>>,
}

impl View for StrList {
    type V = Map<StrListKey, Seq<u8>>;

    /// The strings of the list, by key.
    closed spec fn view(&self) -> Map<StrListKey, Seq<u8>> {
        self.strs@
    }
}

impl StrList {
    /// Number of bytes the list occupies, headers included.
    pub closed spec fn byte_len(&self) -> nat {
        self.bytes@.len()
    }

    pub closed spec fn wf(&self) -> bool {
        &&& self.bytes@.len() < u32::MAX
        &&& forall|k: StrListKey| #[trigger]
            self.strs@.contains_key(k) ==> {
                let s = self.strs@[k];
                let at = k - 1;
                &&& 1 <= k
                &&& at + HEADER_LEN + s.len() <= self.bytes@.len()
                &&& self.bytes@.subrange(at, at + HEADER_LEN) == header_bytes(s.len() as u64)
                &&& self.bytes@.subrange(at + HEADER_LEN, at + HEADER_LEN + s.len()) == s
            }
    }

    /// Keys are positive and lie inside the list.
    pub proof fn lemma_keys_bounded(&self, k: StrListKey)
        requires
            self.wf(),
            self@.contains_key(k),
        ensures
            1 <= k,
            k + HEADER_LEN + self@[k].len() <= self.byte_len() + 1,
    {
    }

    pub fn new() -> (r: Self)
        ensures
            r.wf(),
            r@ == Map::<StrListKey, Seq<u8>>::empty(),
            r.byte_len() == 0,
    {
        StrList { bytes: Vec::new(), strs: Ghost(Map::empty()) }
    }

    /// Appends `s` and returns its key.
    pub fn push(&mut self, s: &[u8]) -> (r: StrListKey)
        requires
            old(self).wf(),
            old(self).byte_len() + HEADER_LEN + s@.len() < u32::MAX,
        ensures
            final(self).wf(),
            r == old(self).byte_len() + 1,
            !old(self)@.contains_key(r),
            final(self)@ == old(self)@.insert(r, s@),
            final(self).byte_len() == old(self).byte_len() + HEADER_LEN + s@.len(),
    {
        let key: u32 = (self.bytes.len() + 1) as u32;
        let n: u64 = s.len() as u64;
        let ghost old_bytes = self.bytes@;
        self.bytes.push(#[verifier::truncate] (n as u8));
        self.bytes.push(#[verifier::truncate] ((n >> 8u64) as u8));
        self.bytes.push(#[verifier::truncate] ((n >> 16u64) as u8));
        self.bytes.push(#[verifier::truncate] ((n >> 24u64) as u8));
        self.bytes.push(#[verifier::truncate] ((n >> 32u64) as u8));
        self.bytes.push(#[verifier::truncate] ((n >> 40u64) as u8));
        self.bytes.push(#[verifier::truncate] ((n >> 48u64) as u8));
        self.bytes.push(#[verifier::truncate] ((n >> 56u64) as u8));
        let mut i: usize = 0;
        while i < s.len()
            invariant
                i <= s@.len(),
                self.bytes@ == old_bytes + header_bytes(n) + s@.subrange(0, i as int),
                self.strs == old(self).strs,
            decreases s@.len() - i,
        {
            self.bytes.push(s[i]);
            i = i + 1;
            assert(s@.subrange(0, i as int) == s@.subrange(0, i - 1).push(s@[i - 1]));
        }
        assert(s@.subrange(0, s@.len() as int) =~= s@);
        proof {
            let nb = self.bytes@;
            assert(nb.subrange(key - 1, key - 1 + HEADER_LEN) =~= header_bytes(n));
            assert(nb.subrange(key - 1 + HEADER_LEN, key - 1 + HEADER_LEN + s@.len()) =~= s@);
            assert forall|k: StrListKey| #[trigger] old(self).strs@.contains_key(k) implies {
                let t = old(self).strs@[k];
                &&& nb.subrange(k - 1, k - 1 + HEADER_LEN) == header_bytes(t.len() as u64)
                &&& nb.subrange(k - 1 + HEADER_LEN, k - 1 + HEADER_LEN + t.len()) == t
            } by {
                let t = old(self).strs@[k];
                assert(nb.subrange(k - 1, k - 1 + HEADER_LEN) =~= old_bytes.subrange(
                    k - 1,
                    k - 1 + HEADER_LEN,
                ));
                assert(nb.subrange(k - 1 + HEADER_LEN, k - 1 + HEADER_LEN + t.len())
                    =~= old_bytes.subrange(k - 1 + HEADER_LEN, k - 1 + HEADER_LEN + t.len()));
            }
            self.strs@ = self.strs@.insert(key, s@);
        }
        key
    }

    /// The string stored under `key`.
    pub fn get(&self, key: StrListKey) -> (r: &[u8])
        requires
            self.wf(),
            self@.contains_key(key),
        ensures
            r@ == self@[key],
    {
        let at: usize = (key - 1) as usize;
        let ghost s = self.strs@[key];
        let b = self.bytes.as_slice();
        proof {
            assert(b@.subrange(at as int, at + HEADER_LEN) == header_bytes(s.len() as u64));
            assert(b@[at as int] == header_bytes(s.len() as u64)[0]);
            assert(b@[at + 1] == header_bytes(s.len() as u64)[1]);
            assert(b@[at + 2] == header_bytes(s.len() as u64)[2]);
            assert(b@[at + 3] == header_bytes(s.len() as u64)[3]);
            assert(b@[at + 4] == header_bytes(s.len() as u64)[4]);
            assert(b@[at + 5] == header_bytes(s.len() as u64)[5]);
            assert(b@[at + 6] == header_bytes(s.len() as u64)[6]);
            assert(b@[at + 7] == header_bytes(s.len() as u64)[7]);
        }
        let len = read_header(b[at], b[at + 1], b[at + 2], b[at + 3], b[at + 4], b[at + 5],
            b[at + 6], b[at + 7]);
        let begin = at + HEADER_LEN;
        slice_subrange(b, begin, begin + len as usize)
    }

    pub fn shrink_to_fit(&mut self)
        ensures
            old(self).wf() ==> final(self).wf(),
            final(self)@ == old(self)@,
            final(self).byte_len() == old(self).byte_len(),
    {
        shrink_vec(&mut self.bytes);
    }
}

/// Reassembles a length from its header bytes.
fn read_header(b0: u8, b1: u8, b2: u8, b3: u8, b4: u8, b5: u8, b6: u8, b7: u8) -> (r: u64)
    ensures
        forall|n: u64|
            seq![b0, b1, b2, b3, b4, b5, b6, b7] == #[trigger] header_bytes(n) ==> r == n,
{
    let r = (b0 as u64) | ((b1 as u64) << 8u64) | ((b2 as u64) << 16u64) | ((b3 as u64) << 24u64)
        | ((b4 as u64) << 32u64) | ((b5 as u64) << 40u64) | ((b6 as u64) << 48u64) | ((b7
        as u64) << 56u64);
    assert forall|n: u64|
        seq![b0, b1, b2, b3, b4, b5, b6, b7] == #[trigger] header_bytes(n) implies r == n by {
        let h = header_bytes(n);
        assert(h[0] == b0 && h[1] == b1 && h[2] == b2 && h[3] == b3);
        assert(h[4] == b4 && h[5] == b5 && h[6] == b6 && h[7] == b7);
        lemma_header_round_trip(n);
    }
    r
}

proof fn lemma_header_round_trip(n: u64)
    ensures
        ((n as u8) as u64) | ((((n >> 8u64) as u8) as u64) << 8u64) | ((((n >> 16u64) as u8)
            as u64) << 16u64) | ((((n >> 24u64) as u8) as u64) << 24u64) | ((((n >> 32u64)
            as u8) as u64) << 32u64) | ((((n >> 40u64) as u8) as u64) << 40u64) | ((((n
            >> 48u64) as u8) as u64) << 48u64) | ((((n >> 56u64) as u8) as u64) << 56u64) == n,
{
    assert(((n as u8) as u64) | ((((n >> 8u64) as u8) as u64) << 8u64) | ((((n >> 16u64) as u8)
        as u64) << 16u64) | ((((n >> 24u64) as u8) as u64) << 24u64) | ((((n >> 32u64) as u8)
        as u64) << 32u64) | ((((n >> 40u64) as u8) as u64) << 40u64) | ((((n >> 48u64) as u8)
        as u64) << 48u64) | ((((n >> 56u64) as u8) as u64) << 56u64) == n) by (bit_vector);
}

impl Default for StrList {
    fn default() -> (r: Self)
        ensures
            r.wf(),
            r@ == Map::<StrListKey, Seq<u8>>::empty(),
            r.byte_len() == 0,
    {
        StrList::new()
    }
}

/// A string of a [`StrList`], named by its key.
#[derive(Clone, Copy)]
pub struct StrListRef<'a> {
    table: &'a StrList,
    key: StrListKey,
}

impl<'a> StrListRef<'a> {
    pub closed spec fn table(&self) -> &'a StrList {
        self.table
    }

    pub closed spec fn key(&self) -> StrListKey {
        self.key
    }

    /// The key names a string of the list.
    pub open spec fn valid(&self) -> bool {
        self.table().wf() && self.table()@.contains_key(self.key())
    }

    pub fn new(table: &'a StrList, key: StrListKey) -> (r: Self)
        ensures
            r.table() == table,
            r.key() == key,
    {
        StrListRef { table, key }
    }

    pub fn get(&self) -> (r: &'a [u8])
        requires
            self.valid(),
        ensures
            r@ == self@,
    {
        self.table.get(self.key)
    }
}

impl<'a> View for StrListRef<'a> {
    type V = Seq<u8>;

    open spec fn view(&self) -> Seq<u8> {
        self.table()@[self.key()]
    }
}

/// Bytes held either in a [`StrList`] or in a slice.
#[derive(Clone, Copy)]
pub enum StrRef<'a> {
    List(StrListRef<'a>),
    Slice(&'a [u8]),
}

impl<'a> View for StrRef<'a> {
    type V = Seq<u8>;

    open spec fn view(&self) -> Seq<u8> {
        match self {
            StrRef::List(r) => r@,
            StrRef::Slice(s) => s@,
        }
    }
}

impl<'a> StrRef<'a> {
    pub open spec fn valid(&self) -> bool {
        match self {
            StrRef::List(r) => r.valid(),
            StrRef::Slice(_) => true,
        }
    }

    pub fn get(&self) -> (r: &'a [u8])
        requires
            self.valid(),
        ensures
            r@ == self@,
    {
        match self {
            StrRef::List(r) => r.get(),
            StrRef::Slice(s) => s,
        }
    }
}

} // verus!
