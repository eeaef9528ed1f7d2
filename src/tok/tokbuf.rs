//! The token representation follows the design of the Carbon compiler: a dense sequence of
//! 32-bit entries, where narrow (static) tokens are packed three to an entry and wide tokens keep
//! their payload in side tables.
use vstd::prelude::*;
use crate::tok::ident::Ident;
use crate::tok::tok::{
    Align, DecIntLiteral, LineComment, StaticTok, StrLiteral, Tok, TokModel, Unexpected,
    spec_from_id, spec_id, lemma_id_bijective,
};
use crate::util::ascii;
use crate::util::bits::Truncate;
use crate::util::misc::shrink_vec;
use crate::util::str_interner::StrInterner;
use crate::util::str_list::{StrList, StrListKey, StrListRef, StrRef, HEADER_LEN};

verus! {

/// Largest token address: addresses take the upper 24 bits of a [`Key`].
pub const ADDR_MAX: u32 = 0xff_ffff;

/// Largest value of the 24-bit `etc` field of an entry.
pub const ETC_MAX: u32 = 0xff_ffff;

/// Locates a token in a [`TokBuf`]: `[ addr : 24 | pack_idx : 8 ]`.
#[derive(Clone, Copy)]
pub struct Key {
    data: u32,
}

impl Key {
    pub closed spec fn spec_addr(self) -> u32 {
        self.data >> 8u32
    }

    pub closed spec fn spec_pack_idx(self) -> u8 {
        self.data as u8
    }

    /// Keys are equal when their parts are.
    pub proof fn lemma_parts_eq(a: Key, b: Key)
        ensures
            (a.spec_addr() == b.spec_addr() && a.spec_pack_idx() == b.spec_pack_idx()) ==> a == b,
    {
        let (x, y) = (a.data, b.data);
        assert((x >> 8u32 == y >> 8u32 && x as u8 == y as u8) ==> x == y) by (bit_vector);
    }

    pub fn addr(self) -> (r: u32)
        ensures
            r == self.spec_addr(),
            r <= ADDR_MAX,
    {
        let d = self.data;
        assert(d >> 8u32 <= 0xff_ffffu32) by (bit_vector);
        self.data >> 8u32
    }

    pub fn pack_idx(self) -> (r: u8)
        ensures
            r == self.spec_pack_idx(),
    {
        self.data.truncate()
    }

    pub fn new(addr: u32, pack_idx: u8) -> (r: Key)
        requires
            addr <= ADDR_MAX,
        ensures
            r.spec_addr() == addr,
            r.spec_pack_idx() == pack_idx,
    {
        let data: u32 = (addr << 8u32) | (pack_idx as u32);
        assert(addr <= 0xff_ffffu32 ==> ((addr << 8u32) | (pack_idx as u32)) >> 8u32 == addr)
            by (bit_vector);
        assert((((addr << 8u32) | (pack_idx as u32)) as u8) == pack_idx) by (bit_vector);
        Key { data }
    }
}

impl Default for Key {
    fn default() -> (r: Key)
        ensures
            r.spec_addr() == 0,
            r.spec_pack_idx() == 0,
    {
        Key::new(0, 0)
    }
}

/// The kind of an entry of the buffer.
#[derive(Clone, Copy, Debug, PartialEq, Eq, Structural)]
pub enum EntryType {
    StaticPack,
    StrLiteral,
    DecIntLiteral,
    Ident,
    Linebreak,
    Align,
    LineComment,
    Unexpected,
}

pub const KIND_STATIC_PACK: u32 = 1;
pub const KIND_STR_LITERAL: u32 = 2;
pub const KIND_DEC_INT_LITERAL: u32 = 3;
pub const KIND_IDENT: u32 = 4;
pub const KIND_LINEBREAK: u32 = 5;
pub const KIND_ALIGN: u32 = 6;
pub const KIND_LINE_COMMENT: u32 = 7;
pub const KIND_UNEXPECTED: u32 = 8;

pub open spec fn spec_entry_type_id(t: EntryType) -> u8 {
    match t {
        EntryType::StaticPack => 1,
        EntryType::StrLiteral => 2,
        EntryType::DecIntLiteral => 3,
        EntryType::Ident => 4,
        EntryType::Linebreak => 5,
        EntryType::Align => 6,
        EntryType::LineComment => 7,
        EntryType::Unexpected => 8,
    }
}

impl EntryType {
    /// All entry kinds, in order of id.
    pub fn variants() -> (r: [EntryType; 8])
        ensures
            forall|i: int| 0 <= i < 8 ==> spec_entry_type_id(#[trigger] r@[i]) == i + 1,
    {
        [
            EntryType::StaticPack,
            EntryType::StrLiteral,
            EntryType::DecIntLiteral,
            EntryType::Ident,
            EntryType::Linebreak,
            EntryType::Align,
            EntryType::LineComment,
            EntryType::Unexpected,
        ]
    }

    pub fn id(self) -> (r: u8)
        ensures
            r == spec_entry_type_id(self),
            1 <= r <= 8,
    {
        match self {
            EntryType::StaticPack => 1,
            EntryType::StrLiteral => 2,
            EntryType::DecIntLiteral => 3,
            EntryType::Ident => 4,
            EntryType::Linebreak => 5,
            EntryType::Align => 6,
            EntryType::LineComment => 7,
            EntryType::Unexpected => 8,
        }
    }

    pub fn from_id(id: u8) -> (r: Option<EntryType>)
        ensures
            r is Some <==> 1 <= id <= 8,
            r matches Some(t) ==> spec_entry_type_id(t) == id,
    {
        if id == 0 || id > 8 {
            return None;
        }
        let t = Self::variants()[(id - 1) as usize];
        Some(t)
    }
}

/// The kind id held in the upper 8 bits of an entry.
pub open spec fn entry_kind(d: u32) -> u32 {
    d >> 24u32
}

/// The lower 24 bits of an entry.
pub open spec fn entry_etc(d: u32) -> u32 {
    d & 0xff_ffffu32
}

/// Slot `p` (0, 1 or 2) of a static pack.
pub open spec fn pack_slot(etc: u32, p: int) -> u32 {
    if p == 0 {
        etc & 0xffu32
    } else if p == 1 {
        (etc >> 8u32) & 0xffu32
    } else {
        (etc >> 16u32) & 0xffu32
    }
}

/// One 32-bit entry of the buffer: `[ kind_id : 8 | etc : 24 ]`.
#[derive(Clone, Copy)]
struct TokBufEntry {
    data: u32,
}

impl TokBufEntry {
    fn kind_id(self) -> (r: u32)
        ensures
            r == entry_kind(self.data),
    {
        self.data >> 24u32
    }

    fn etc(self) -> (r: u32)
        ensures
            r == entry_etc(self.data),
            r <= ETC_MAX,
    {
        let d = self.data;
        assert(d & 0xff_ffffu32 <= 0xff_ffffu32) by (bit_vector);
        self.data & 0xff_ffffu32
    }

    fn new(kind: u32, etc: u32) -> (r: Self)
        requires
            1 <= kind <= 8,
            etc <= ETC_MAX,
        ensures
            entry_kind(r.data) == kind,
            entry_etc(r.data) == etc,
    {
        assert(1 <= kind <= 8 && etc <= 0xff_ffffu32 ==> ((kind << 24u32) | etc) >> 24u32 == kind)
            by (bit_vector);
        assert(etc <= 0xff_ffffu32 ==> ((kind << 24u32) | etc) & 0xff_ffffu32 == etc)
            by (bit_vector);
        TokBufEntry { data: (kind << 24u32) | etc }
    }
}

/// Facts about the three slots of a static pack.
proof fn lemma_pack_bits(e: u32, id: u32)
    requires
        e <= 0xff_ffff,
        1 <= id <= 0xff,
    ensures
        (pack_slot(e, 1) == 0 && pack_slot(e, 2) == 0) <==> e <= 0xff,
        pack_slot(e, 2) == 0 <==> e <= 0xffff,
        pack_slot(id, 0) == id && pack_slot(id, 1) == 0 && pack_slot(id, 2) == 0,
        e <= 0xff ==> ({
            let n = e | (id << 8u32);
            &&& n <= 0xff_ffff
            &&& pack_slot(n, 0) == pack_slot(e, 0)
            &&& pack_slot(n, 1) == id
            &&& pack_slot(n, 2) == 0
        }),
        e <= 0xffff ==> ({
            let n = e | (id << 16u32);
            &&& n <= 0xff_ffff
            &&& pack_slot(n, 0) == pack_slot(e, 0)
            &&& pack_slot(n, 1) == pack_slot(e, 1)
            &&& pack_slot(n, 2) == id
        }),
{
    assert(e <= 0xff_ffffu32 ==> ((((e >> 8u32) & 0xffu32) == 0 && ((e >> 16u32) & 0xffu32) == 0)
        <==> e <= 0xffu32)) by (bit_vector);
    assert(e <= 0xff_ffffu32 ==> (((e >> 16u32) & 0xffu32) == 0 <==> e <= 0xffffu32))
        by (bit_vector);
    assert(1 <= id <= 0xffu32 ==> (id & 0xffu32) == id && ((id >> 8u32) & 0xffu32) == 0 && ((id
        >> 16u32) & 0xffu32) == 0) by (bit_vector);
    assert(e <= 0xffu32 && id <= 0xffu32 ==> ({
        let n = e | (id << 8u32);
        n <= 0xff_ffffu32 && (n & 0xffu32) == (e & 0xffu32) && ((n >> 8u32) & 0xffu32) == id && ((n
            >> 16u32) & 0xffu32) == 0
    })) by (bit_vector);
    assert(e <= 0xffffu32 && id <= 0xffu32 ==> ({
        let n = e | (id << 16u32);
        n <= 0xff_ffffu32 && (n & 0xffu32) == (e & 0xffu32) && ((n >> 8u32) & 0xffu32) == ((e
            >> 8u32) & 0xffu32) && ((n >> 16u32) & 0xffu32) == id
    })) by (bit_vector);
}

/// A dense representation of a source file.
///
/// The parser cares about the kind of each token, not about its payload, so the payload of
/// string literals, integer literals and comments sits in a side table, and identifiers are
/// interned; the entries stay small and contiguous.
pub struct TokBuf {
    str_table: StrList,
    buf: Vec<TokBufEntry>,
    /// For each linebreak of the source, the address of the token that holds it, in order.
    lines: Vec<u32>,
    toks: Ghost<Seq<TokModel>>,
    positions: Ghost<Seq<(int, int)>>,
    /// For each token, how many linebreaks had been recorded when it was pushed.
    marks: Ghost<Seq<int>>,
}

impl TokBuf {
    /// The tokens pushed so far, in order.
    pub closed spec fn toks(&self) -> Seq<TokModel> {
        self.toks@
    }

    /// The address and pack index of each token.
    pub closed spec fn positions(&self) -> Seq<(int, int)> {
        self.positions@
    }

    /// Number of entries.
    pub closed spec fn spec_len(&self) -> nat {
        self.buf@.len()
    }

    /// The 32-bit entry at address `a`: `[ kind_id : 8 | etc : 24 ]`.
    pub closed spec fn entry_data(&self, a: int) -> u32 {
        self.buf@[a].data
    }

    /// The strings of the side table, by key.
    pub closed spec fn table_strs(&self) -> Map<StrListKey, Seq<u8>> {
        self.str_table@
    }

    pub closed spec fn str_table_len(&self) -> nat {
        self.str_table.byte_len()
    }

    pub closed spec fn lines(&self) -> Seq<u32> {
        self.lines@
    }

    /// For each token, how many linebreaks come before it.
    pub closed spec fn marks(&self) -> Seq<int> {
        self.marks@
    }

    /// The token at address `a` and pack index `p`, read from the entries; `strs` are the
    /// interner's strings.
    pub open spec fn tok_at(&self, strs: Map<StrListKey, Seq<u8>>, a: int, p: int) -> Option<
        TokModel,
    > {
        if !(0 <= a < self.spec_len()) {
            None
        } else {
            let d = self.entry_data(a);
            let k = entry_kind(d);
            let e = entry_etc(d);
            if k == KIND_STATIC_PACK {
                if 0 <= p <= 2 && pack_slot(e, p) != 0 {
                    match spec_from_id(pack_slot(e, p) as u8) {
                        Some(t) => Some(TokModel::Static(t)),
                        None => None,
                    }
                } else {
                    None
                }
            } else if p != 0 {
                None
            } else if k == KIND_STR_LITERAL {
                Some(TokModel::StrLiteral(self.table_strs()[e]))
            } else if k == KIND_DEC_INT_LITERAL {
                Some(TokModel::DecIntLiteral(self.table_strs()[e]))
            } else if k == KIND_IDENT {
                Some(TokModel::Ident(strs[e]))
            } else if k == KIND_LINEBREAK {
                Some(TokModel::Linebreak)
            } else if k == KIND_ALIGN {
                Some(TokModel::Align(e))
            } else if k == KIND_LINE_COMMENT {
                Some(TokModel::LineComment(self.table_strs()[e]))
            } else if k == KIND_UNEXPECTED {
                Some(TokModel::Unexpected(e as u8))
            } else {
                None
            }
        }
    }

    /// Where a cursor goes after the token at `(a, p)`: the next slot of the same pack if it
    /// holds a token, else the next entry.
    pub open spec fn next_pos(&self, strs: Map<StrListKey, Seq<u8>>, a: int, p: int) -> (int, int) {
        if self.tok_at(strs, a, p + 1) is Some {
            (a, p + 1)
        } else {
            (a + 1, 0)
        }
    }

    /// The position of token `i`, or the end position past the last token.
    pub open spec fn pos_of(&self, i: int) -> (int, int) {
        if 0 <= i < self.toks().len() {
            self.positions()[i]
        } else {
            self.end_pos()
        }
    }

    /// The position just past the last token.
    pub open spec fn end_pos(&self) -> (int, int) {
        (self.spec_len() as int, 0)
    }

    closed spec fn entry_ok(&self, strs: Map<StrListKey, Seq<u8>>, i: int) -> bool {
        let d = self.buf@[i].data;
        let k = entry_kind(d);
        let e = entry_etc(d);
        &&& 1 <= k <= 8
        &&& k == KIND_STATIC_PACK ==> {
            &&& 1 <= pack_slot(e, 0) <= 31
            &&& pack_slot(e, 1) <= 31
            &&& pack_slot(e, 2) <= 31
            &&& pack_slot(e, 1) == 0 ==> pack_slot(e, 2) == 0
        }
        &&& (k == KIND_STR_LITERAL || k == KIND_DEC_INT_LITERAL || k == KIND_LINE_COMMENT)
            ==> self.str_table@.contains_key(e)
        &&& k == KIND_IDENT ==> strs.contains_key(e)
        &&& k == KIND_UNEXPECTED ==> e <= 0xff
    }

    /// The entries are well formed and decode, in cursor order, to the tokens of the model.
    pub closed spec fn wf(&self, strs: Map<StrListKey, Seq<u8>>) -> bool {
        &&& self.buf@.len() <= ADDR_MAX
        &&& self.str_table.wf()
        &&& self.str_table.byte_len() + HEADER_LEN < ETC_MAX
        &&& forall|i: int| 0 <= i < self.buf@.len() ==> #[trigger] self.entry_ok(strs, i)
        &&& self.toks@.len() == self.positions@.len()
        &&& forall|i: int|
            0 <= i < self.toks@.len() ==> self.tok_at(strs, #[trigger] self.positions@[i].0, self.positions@[i].1)
                == Some(self.toks@[i])
        &&& self.toks@.len() == 0 ==> self.buf@.len() == 0
        &&& self.toks@.len() > 0 ==> self.positions@[0] == (0int, 0int)
        &&& forall|i: int|
            0 <= i < self.toks@.len() - 1 ==> #[trigger] self.positions@[i + 1] == self.next_pos(
                strs,
                self.positions@[i].0,
                self.positions@[i].1,
            )
        &&& self.toks@.len() > 0 ==> self.next_pos(
            strs,
            self.positions@.last().0,
            self.positions@.last().1,
        ) == self.end_pos()
        &&& forall|i: int, j: int|
            0 <= i <= j < self.lines@.len() ==> self.lines@[i] <= self.lines@[j]
        &&& forall|i: int| 0 <= i < self.lines@.len() ==> self.lines@[i] < self.buf@.len()
        &&& forall|k: int| 0 <= k < self.lines@.len() ==> entry_kind(#[trigger] self.buf@[self.lines@[k] as int].data) != KIND_STATIC_PACK
        &&& self.marks@.len() == self.toks@.len()
        &&& forall|i: int| 0 <= i < self.toks@.len() ==> lines_split(self.lines@, #[trigger] self.marks@[i], self.positions@[i].0)
    }

    /// Free slots of the last entry when it is a static pack; zero otherwise.
    pub open spec fn open_slots(&self) -> nat {
        if self.spec_len() > 0 && entry_kind(self.entry_data(self.spec_len() - 1)) == KIND_STATIC_PACK {
            let e = entry_etc(self.entry_data(self.spec_len() - 1));
            if pack_slot(e, 2) != 0 {
                0
            } else if pack_slot(e, 1) != 0 {
                1
            } else {
                2
            }
        } else {
            0
        }
    }

    /// Whether the buffer has room for `t`.
    pub open spec fn room_for(&self, interner: &StrInterner, t: TokModel) -> bool {
        &&& self.spec_len() < ADDR_MAX
        &&& match t {
            TokModel::StrLiteral(s) => self.str_table_len() + 2 * HEADER_LEN + s.len() < ETC_MAX,
            TokModel::DecIntLiteral(s) => self.str_table_len() + 2 * HEADER_LEN + s.len() < ETC_MAX,
            TokModel::LineComment(s) => self.str_table_len() + 2 * HEADER_LEN + s.len() < ETC_MAX,
            TokModel::Ident(s) => interner.byte_len() + HEADER_LEN + s.len() < ETC_MAX,
            TokModel::Align(n) => n <= ETC_MAX,
            _ => true,
        }
    }
}

/// Reading an entry that did not change gives the same token, when the tables only grew.
proof fn lemma_tok_at_frame(
    a: &TokBuf,
    b: &TokBuf,
    sa: Map<StrListKey, Seq<u8>>,
    sb: Map<StrListKey, Seq<u8>>,
    x: int,
    p: int,
)
    requires
        0 <= x < a.buf@.len(),
        x < b.buf@.len(),
        b.buf@[x] == a.buf@[x],
        a.entry_ok(sa, x),
        a.str_table@.submap_of(b.str_table@),
        sa.submap_of(sb),
    ensures
        b.tok_at(sb, x, p) == a.tok_at(sa, x, p),
{
    let e = entry_etc(a.buf@[x].data);
    let k = entry_kind(a.buf@[x].data);
    assert(a.entry_ok(sa, x));
    if k == KIND_STR_LITERAL || k == KIND_DEC_INT_LITERAL || k == KIND_LINE_COMMENT {
        let ma = a.str_table@;
        let mb = b.str_table@;
        assert(ma.dom().contains(e));
        assert(forall|k: u32| ma.dom().contains(k) ==> mb.dom().contains(k) && ma[k] == mb[k]);
        assert(mb[e] == ma[e]);
    }
    if k == KIND_IDENT {
        assert(sa.dom().contains(e));
        assert(forall|k: u32| sa.dom().contains(k) ==> sb.dom().contains(k) && sa[k] == sb[k]);
        assert(sb[e] == sa[e]);
    }
}

/// Appending one entry that holds exactly one token keeps the buffer well formed.
#[verifier::rlimit(30)]
proof fn lemma_append_entry(
    old: &TokBuf,
    new: &TokBuf,
    so: Map<StrListKey, Seq<u8>>,
    sn: Map<StrListKey, Seq<u8>>,
    t: TokModel,
)
    requires
        old.wf(so),
        new.buf@.len() == old.buf@.len() + 1,
        new.buf@.len() <= ADDR_MAX,
        forall|i: int| 0 <= i < old.buf@.len() ==> new.buf@[i] == old.buf@[i],
        old.str_table@.submap_of(new.str_table@),
        new.str_table.wf(),
        new.str_table.byte_len() + HEADER_LEN < ETC_MAX,
        so.submap_of(sn),
        new.entry_ok(sn, old.buf@.len() as int),
        new.tok_at(sn, old.buf@.len() as int, 0) == Some(t),
        new.tok_at(sn, old.buf@.len() as int, 1) is None,
        new.toks@ == old.toks@.push(t),
        new.positions@ == old.positions@.push((old.buf@.len() as int, 0int)),
        old.lines@.len() <= new.lines@.len(),
        forall|k: int| 0 <= k < old.lines@.len() ==> new.lines@[k] == old.lines@[k],
        forall|k: int| old.lines@.len() <= k < new.lines@.len() ==> new.lines@[k] == old.buf@.len(),
        new.lines@.len() > old.lines@.len() ==> entry_kind(new.buf@[old.buf@.len() as int].data)
            != KIND_STATIC_PACK,
        new.marks@ == old.marks@.push(old.lines@.len() as int),
    ensures
        new.wf(sn),
{
    let n = old.buf@.len() as int;
    assert forall|k: int| 0 <= k < new.lines@.len() implies entry_kind(#[trigger] new.buf@[new.lines@[k] as int].data) != KIND_STATIC_PACK by {
        if k < old.lines@.len() {
            assert(entry_kind(old.buf@[old.lines@[k] as int].data) != KIND_STATIC_PACK);
        }
    }
    assert forall|i: int| 0 <= i < new.toks@.len() implies lines_split(new.lines@, #[trigger] new.marks@[i], new.positions@[i].0) by {
        if i < old.toks@.len() {
            assert(lines_split(old.lines@, old.marks@[i], old.positions@[i].0));
            assert(old.tok_at(so, old.positions@[i].0, old.positions@[i].1) == Some(old.toks@[i]));
        }
    }
    assert forall|x: int, p: int| 0 <= x < n implies new.tok_at(sn, x, p) == old.tok_at(so, x, p) by {
        assert(old.entry_ok(so, x));
        lemma_tok_at_frame(old, new, so, sn, x, p);
    }
    assert forall|i: int| 0 <= i < new.buf@.len() implies #[trigger] new.entry_ok(sn, i) by {
        if i < n {
            assert(old.entry_ok(so, i));
            let e = entry_etc(old.buf@[i].data);
            let k = entry_kind(old.buf@[i].data);
            if k == KIND_STR_LITERAL || k == KIND_DEC_INT_LITERAL || k == KIND_LINE_COMMENT {
                assert(new.str_table@.contains_key(e));
            }
            if k == KIND_IDENT {
                assert(sn.contains_key(e));
            }
        }
    }
    let len = new.toks@.len();
    assert forall|i: int|
        0 <= i < len implies new.tok_at(sn, #[trigger] new.positions@[i].0, new.positions@[i].1)
        == Some(new.toks@[i]) by {
        if i < len - 1 {
            let q = old.positions@[i];
            assert(old.tok_at(so, q.0, q.1) == Some(old.toks@[i]));
        }
    }
    if old.toks@.len() > 0 {
        let q = old.positions@.last();
        assert(old.next_pos(so, q.0, q.1) == old.end_pos());
        assert(q.0 < n) by {
            assert(old.tok_at(so, q.0, q.1) == Some(old.toks@[old.toks@.len() - 1]));
        }
        assert(new.tok_at(sn, q.0, q.1 + 1) == old.tok_at(so, q.0, q.1 + 1));
    }
    assert forall|i: int|
        0 <= i < len - 1 implies #[trigger] new.positions@[i + 1] == new.next_pos(
        sn,
        new.positions@[i].0,
        new.positions@[i].1,
    ) by {
        let q = new.positions@[i];
        if i < len - 2 {
            assert(old.positions@[i + 1] == old.next_pos(so, q.0, q.1));
            assert(old.tok_at(so, q.0, q.1) == Some(old.toks@[i]));
            assert(new.tok_at(sn, q.0, q.1 + 1) == old.tok_at(so, q.0, q.1 + 1));
        }
    }
}

/// Folding a static token into the free slot `o` of the last pack keeps the buffer well formed.
#[verifier::rlimit(40)]
proof fn lemma_fold_into_pack(
    old: &TokBuf,
    new: &TokBuf,
    strs: Map<StrListKey, Seq<u8>>,
    o: int,
    e: u32,
    ne: u32,
    stok: StaticTok,
)
    requires
        old.wf(strs),
        old.buf@.len() > 0,
        entry_kind(old.buf@.last().data) == KIND_STATIC_PACK,
        e == entry_etc(old.buf@.last().data),
        o == 1 || o == 2,
        pack_slot(e, o) == 0,
        o == 1 ==> pack_slot(e, 2) == 0,
        o == 2 ==> pack_slot(e, 1) != 0,
        forall|p: int| 0 <= p < o ==> pack_slot(ne, p) == pack_slot(e, p),
        pack_slot(ne, o) == spec_id(stok) as u32,
        o == 1 ==> pack_slot(ne, 2) == 0,
        spec_from_id(spec_id(stok)) == Some(stok),
        1 <= spec_id(stok) <= 31,
        new.buf@ == old.buf@.update(old.buf@.len() - 1, new.buf@.last()),
        entry_kind(new.buf@.last().data) == KIND_STATIC_PACK,
        entry_etc(new.buf@.last().data) == ne,
        new.str_table == old.str_table,
        new.lines == old.lines,
        new.toks@ == old.toks@.push(TokModel::Static(stok)),
        new.positions@ == old.positions@.push((old.buf@.len() - 1, o)),
        new.marks@ == old.marks@.push(old.lines@.len() as int),
    ensures
        new.wf(strs),
{
    let n = old.buf@.len() as int;
    let m = n - 1;
    assert forall|k: int| 0 <= k < new.lines@.len() implies entry_kind(#[trigger] new.buf@[new.lines@[k] as int].data) != KIND_STATIC_PACK by {
        assert(entry_kind(old.buf@[old.lines@[k] as int].data) != KIND_STATIC_PACK);
    }
    assert forall|i: int| 0 <= i < new.toks@.len() implies lines_split(new.lines@, #[trigger] new.marks@[i], new.positions@[i].0) by {
        if i < old.toks@.len() {
            assert(lines_split(old.lines@, old.marks@[i], old.positions@[i].0));
        } else {
            assert forall|k: int| 0 <= k < new.lines@.len() implies new.lines@[k] < m by {
                assert(entry_kind(old.buf@[old.lines@[k] as int].data) != KIND_STATIC_PACK);
            }
        }
    }
    let t = TokModel::Static(stok);
    assert(old.entry_ok(strs, m));
    // The last token sits in the last occupied slot of the last entry.
    let q = old.positions@.last();
    assert(old.toks@.len() > 0);
    assert(old.tok_at(strs, q.0, q.1) == Some(old.toks@.last()));
    assert(old.next_pos(strs, q.0, q.1) == old.end_pos());
    assert(q.0 == m);
    if q.1 != o - 1 {
        if o == 1 {
            assert(pack_slot(e, q.1) == 0);
        } else if q.1 == 0 {
            assert(old.tok_at(strs, m, 1) is Some);
        } else {
            assert(pack_slot(e, 2) == 0);
        }
    }
    assert(q.1 == o - 1);
    // Every slot below `o` reads as before; slot `o` now holds the new token.
    assert forall|x: int, p: int|
        0 <= x < n && (x < m || p < o) implies new.tok_at(strs, x, p) == old.tok_at(strs, x, p) by {
        if x < m {
            assert(old.entry_ok(strs, x));
            lemma_tok_at_frame(old, new, strs, strs, x, p);
        }
    }
    assert(new.tok_at(strs, m, o) == Some(t));
    assert(new.tok_at(strs, m, o + 1) is None);
    assert forall|i: int| 0 <= i < new.buf@.len() implies #[trigger] new.entry_ok(strs, i) by {
        if i < m {
            assert(old.entry_ok(strs, i));
        }
    }
    let len = new.toks@.len();
    // Tokens of the last entry other than the last one sit below slot o - 1.
    assert forall|i: int| 0 <= i < len - 1 implies old.positions@[i].0 < m || old.positions@[i].1
        < o by {
        let qi = old.positions@[i];
        assert(old.tok_at(strs, qi.0, qi.1) == Some(old.toks@[i]));
        if qi.0 == m && qi.1 >= o {
            assert(pack_slot(e, qi.1) == 0);
        }
    }
    assert forall|i: int|
        0 <= i < len implies new.tok_at(strs, #[trigger] new.positions@[i].0, new.positions@[i].1)
        == Some(new.toks@[i]) by {
        if i < len - 1 {
            let qi = old.positions@[i];
            assert(old.tok_at(strs, qi.0, qi.1) == Some(old.toks@[i]));
        }
    }
    assert forall|i: int|
        0 <= i < len - 1 implies #[trigger] new.positions@[i + 1] == new.next_pos(
        strs,
        new.positions@[i].0,
        new.positions@[i].1,
    ) by {
        let qi = old.positions@[i];
        if i < len - 2 {
            assert(old.positions@[i + 1] == old.next_pos(strs, qi.0, qi.1));
            let qn = old.positions@[i + 1];
            assert(old.tok_at(strs, qn.0, qn.1) == Some(old.toks@[i + 1]));
            if qi.0 == m {
                assert(qn.0 == m);
                assert(qi.1 + 1 < o);
            }
        }
    }
}

impl TokBuf {
    pub fn new() -> (r: TokBuf)
        ensures
            forall|strs: Map<StrListKey, Seq<u8>>| #[trigger] r.wf(strs),
            r.toks() == Seq::<TokModel>::empty(),
            r.spec_len() == 0,
            r.str_table_len() == 0,
            r.lines() == Seq::<u32>::empty(),
            r.marks() == Seq::<int>::empty(),
            r.open_slots() == 0,
            r.positions() == Seq::<(int, int)>::empty(),
    {
        TokBuf {
            str_table: StrList::new(),
            buf: Vec::new(),
            lines: Vec::new(),
            toks: Ghost(Seq::empty()),
            positions: Ghost(Seq::empty()),
            marks: Ghost(Seq::empty()),
        }
    }

    /// Number of entries.
    pub fn len(&self) -> (r: usize)
        ensures
            r == self.spec_len(),
    {
        self.buf.len()
    }

    fn insert_str_table_entry(&mut self, entry: &[u8]) -> (r: u32)
        requires
            old(self).str_table.wf(),
            old(self).str_table.byte_len() + 2 * HEADER_LEN + entry@.len() < ETC_MAX,
        ensures
            final(self).str_table.wf(),
            final(self).str_table@ == old(self).str_table@.insert(r, entry@),
            !old(self).str_table@.contains_key(r),
            final(self).str_table.byte_len() == old(self).str_table.byte_len() + HEADER_LEN
                + entry@.len(),
            r <= ETC_MAX,
            final(self).buf == old(self).buf,
            final(self).lines == old(self).lines,
            final(self).toks == old(self).toks,
            final(self).positions == old(self).positions,
            final(self).marks == old(self).marks,
    {
        self.str_table.push(entry)
    }

    fn make_str_table_ref<'b>(&'b self, etc: u32) -> (r: StrRef<'b>)
        requires
            self.str_table.wf(),
            self.str_table@.contains_key(etc),
        ensures
            r.valid(),
            r@ == self.str_table@[etc],
    {
        StrRef::List(StrListRef::new(&self.str_table, etc))
    }

    #[verifier::rlimit(30)]
    fn push_string_entry(&mut self, kind: u32, bytes: &[u8], Ghost(strs): Ghost<Map<StrListKey, Seq<u8>>>)
        requires
            old(self).wf(strs),
            kind == KIND_STR_LITERAL || kind == KIND_DEC_INT_LITERAL || kind == KIND_LINE_COMMENT,
            old(self).buf@.len() < ADDR_MAX,
            old(self).str_table.byte_len() + 2 * HEADER_LEN + bytes@.len() < ETC_MAX,
        ensures
            final(self).positions@ == old(self).positions@.push((old(self).buf@.len() as int, 0int)),
            forall|a: int| 0 <= a < old(self).buf@.len() ==> #[trigger] final(self).buf@[a] == old(self).buf@[a],
            entry_kind(final(self).buf@[old(self).buf@.len() as int].data) == kind,
            final(self).marks@ == old(self).marks@.push(old(self).lines@.len() as int),
            final(self).wf(strs),
            final(self).toks@ == old(self).toks@.push(
                if kind == KIND_STR_LITERAL {
                    TokModel::StrLiteral(bytes@)
                } else if kind == KIND_DEC_INT_LITERAL {
                    TokModel::DecIntLiteral(bytes@)
                } else {
                    TokModel::LineComment(bytes@)
                },
            ),
            final(self).buf@.len() == old(self).buf@.len() + 1,
            final(self).open_slots() == 0,
            final(self).str_table.byte_len() == old(self).str_table.byte_len() + HEADER_LEN
                + bytes@.len(),
            kind == KIND_STR_LITERAL ==> final(self).lines@ == old(self).lines@ + Seq::new(
                newline_count(bytes@),
                |i: int| old(self).buf@.len() as u32,
            ),
            kind != KIND_STR_LITERAL ==> final(self).lines@ == old(self).lines@,
    {
        let ghost old_self = *self;
        let ghost t = if kind == KIND_STR_LITERAL {
            TokModel::StrLiteral(bytes@)
        } else if kind == KIND_DEC_INT_LITERAL {
            TokModel::DecIntLiteral(bytes@)
        } else {
            TokModel::LineComment(bytes@)
        };
        let etc = self.insert_str_table_entry(bytes);
        let tok_addr = self.buf.len() as u32;
        self.buf.push(TokBufEntry::new(kind, etc));
        let ghost pushed = *self;
        if kind == KIND_STR_LITERAL {
            let mut i: usize = 0;
            while i < bytes.len()
                invariant
                    i <= bytes@.len(),
                    self.str_table == pushed.str_table,
                    self.buf == pushed.buf,
                    self.toks == pushed.toks,
                    self.positions == pushed.positions,
                    self.marks == pushed.marks,
                    tok_addr == old_self.buf@.len(),
                    self.buf@.len() == old_self.buf@.len() + 1,
                    self.lines@ == old_self.lines@ + Seq::new(
                        newline_count(bytes@.subrange(0, i as int)),
                        |k: int| tok_addr,
                    ),
                decreases bytes@.len() - i,
            {
                proof {
                    lemma_newline_count_step(bytes@, i as int);
                }
                if bytes[i] == ascii::LINEBREAK {
                    self.lines.push(tok_addr);
                    assert(self.lines@ =~= old_self.lines@ + Seq::new(
                        newline_count(bytes@.subrange(0, i + 1)),
                        |k: int| tok_addr,
                    ));
                } else {
                    assert(self.lines@ =~= old_self.lines@ + Seq::new(
                        newline_count(bytes@.subrange(0, i + 1)),
                        |k: int| tok_addr,
                    ));
                }
                i = i + 1;
            }
            assert(bytes@.subrange(0, bytes@.len() as int) =~= bytes@);
        }
        proof {
            self.toks@ = self.toks@.push(t);
            self.positions@ = self.positions@.push((old_self.buf@.len() as int, 0int));
            self.marks@ = self.marks@.push(old_self.lines@.len() as int);
            assert(self.str_table@.contains_key(etc));
            lemma_append_entry(&old_self, self, strs, strs, t);
        }
    }

    fn push_dec_int_literal(&mut self, lit: DecIntLiteral, Ghost(strs): Ghost<Map<StrListKey, Seq<u8>>>)
        requires
            old(self).wf(strs),
            lit.str_ref.valid(),
            old(self).buf@.len() < ADDR_MAX,
            old(self).str_table.byte_len() + 2 * HEADER_LEN + lit.str_ref@.len() < ETC_MAX,
        ensures
            final(self).positions@ == old(self).positions@.push((old(self).buf@.len() as int, 0int)),
            forall|a: int| 0 <= a < old(self).buf@.len() ==> #[trigger] final(self).buf@[a] == old(self).buf@[a],
            entry_kind(final(self).buf@[old(self).buf@.len() as int].data) == KIND_DEC_INT_LITERAL,
            final(self).marks@ == old(self).marks@.push(old(self).lines@.len() as int),
            final(self).wf(strs),
            final(self).toks@ == old(self).toks@.push(TokModel::DecIntLiteral(lit.str_ref@)),
            final(self).buf@.len() == old(self).buf@.len() + 1,
            final(self).open_slots() == 0,
            final(self).str_table.byte_len() == old(self).str_table.byte_len() + HEADER_LEN
                + lit.str_ref@.len(),
            final(self).lines@ == old(self).lines@,
    {
        self.push_string_entry(KIND_DEC_INT_LITERAL, lit.str_ref.get(), Ghost(strs));
    }

    fn push_str_literal(&mut self, lit: StrLiteral, Ghost(strs): Ghost<Map<StrListKey, Seq<u8>>>)
        requires
            old(self).wf(strs),
            lit.str_ref.valid(),
            old(self).buf@.len() < ADDR_MAX,
            old(self).str_table.byte_len() + 2 * HEADER_LEN + lit.str_ref@.len() < ETC_MAX,
        ensures
            final(self).positions@ == old(self).positions@.push((old(self).buf@.len() as int, 0int)),
            forall|a: int| 0 <= a < old(self).buf@.len() ==> #[trigger] final(self).buf@[a] == old(self).buf@[a],
            entry_kind(final(self).buf@[old(self).buf@.len() as int].data) == KIND_STR_LITERAL,
            final(self).marks@ == old(self).marks@.push(old(self).lines@.len() as int),
            final(self).wf(strs),
            final(self).toks@ == old(self).toks@.push(TokModel::StrLiteral(lit.str_ref@)),
            final(self).buf@.len() == old(self).buf@.len() + 1,
            final(self).open_slots() == 0,
            final(self).str_table.byte_len() == old(self).str_table.byte_len() + HEADER_LEN
                + lit.str_ref@.len(),
            final(self).lines@ == old(self).lines@ + Seq::new(
                newline_count(lit.str_ref@),
                |i: int| old(self).buf@.len() as u32,
            ),
    {
        self.push_string_entry(KIND_STR_LITERAL, lit.str_ref.get(), Ghost(strs));
    }

    fn push_line_comment(&mut self, lc: LineComment, Ghost(strs): Ghost<Map<StrListKey, Seq<u8>>>)
        requires
            old(self).wf(strs),
            lc.str_ref.valid(),
            old(self).buf@.len() < ADDR_MAX,
            old(self).str_table.byte_len() + 2 * HEADER_LEN + lc.str_ref@.len() < ETC_MAX,
        ensures
            final(self).positions@ == old(self).positions@.push((old(self).buf@.len() as int, 0int)),
            forall|a: int| 0 <= a < old(self).buf@.len() ==> #[trigger] final(self).buf@[a] == old(self).buf@[a],
            entry_kind(final(self).buf@[old(self).buf@.len() as int].data) == KIND_LINE_COMMENT,
            final(self).marks@ == old(self).marks@.push(old(self).lines@.len() as int),
            final(self).wf(strs),
            final(self).toks@ == old(self).toks@.push(TokModel::LineComment(lc.str_ref@)),
            final(self).buf@.len() == old(self).buf@.len() + 1,
            final(self).open_slots() == 0,
            final(self).str_table.byte_len() == old(self).str_table.byte_len() + HEADER_LEN
                + lc.str_ref@.len(),
            final(self).lines@ == old(self).lines@,
    {
        self.push_string_entry(KIND_LINE_COMMENT, lc.str_ref.get(), Ghost(strs));
    }

    fn push_narrow(&mut self, kind: u32, etc: u32, Ghost(strs): Ghost<Map<StrListKey, Seq<u8>>>)
        requires
            old(self).wf(strs),
            kind == KIND_LINEBREAK || kind == KIND_ALIGN || kind == KIND_UNEXPECTED,
            kind == KIND_UNEXPECTED ==> etc <= 0xff,
            kind == KIND_LINEBREAK ==> etc == 0,
            etc <= ETC_MAX,
            old(self).buf@.len() < ADDR_MAX,
        ensures
            final(self).positions@ == old(self).positions@.push((old(self).buf@.len() as int, 0int)),
            forall|a: int| 0 <= a < old(self).buf@.len() ==> #[trigger] final(self).buf@[a] == old(self).buf@[a],
            entry_kind(final(self).buf@[old(self).buf@.len() as int].data) == kind,
            final(self).marks@ == old(self).marks@.push(old(self).lines@.len() as int),
            final(self).wf(strs),
            final(self).toks@ == old(self).toks@.push(
                if kind == KIND_LINEBREAK {
                    TokModel::Linebreak
                } else if kind == KIND_ALIGN {
                    TokModel::Align(etc)
                } else {
                    TokModel::Unexpected(etc as u8)
                },
            ),
            final(self).buf@.len() == old(self).buf@.len() + 1,
            final(self).open_slots() == 0,
            final(self).str_table == old(self).str_table,
            kind == KIND_LINEBREAK ==> final(self).lines@ == old(self).lines@.push(
                old(self).buf@.len() as u32,
            ),
            kind != KIND_LINEBREAK ==> final(self).lines@ == old(self).lines@,
    {
        let ghost old_self = *self;
        let ghost t = if kind == KIND_LINEBREAK {
            TokModel::Linebreak
        } else if kind == KIND_ALIGN {
            TokModel::Align(etc)
        } else {
            TokModel::Unexpected(etc as u8)
        };
        let tok_addr = self.buf.len() as u32;
        self.buf.push(TokBufEntry::new(kind, etc));
        if kind == KIND_LINEBREAK {
            self.lines.push(tok_addr);
        }
        proof {
            self.toks@ = self.toks@.push(t);
            self.positions@ = self.positions@.push((old_self.buf@.len() as int, 0int));
            self.marks@ = self.marks@.push(old_self.lines@.len() as int);
            lemma_append_entry(&old_self, self, strs, strs, t);
        }
    }

    fn push_ident(&mut self, ident: Ident, interner: &mut StrInterner)
        requires
            old(self).wf(old(interner).strs()),
            old(interner).wf(),
            ident.source_text.valid(),
            old(self).buf@.len() < ADDR_MAX,
            old(interner).byte_len() + HEADER_LEN + ident.source_text@.len() < ETC_MAX,
        ensures
            final(self).positions@ == old(self).positions@.push((old(self).buf@.len() as int, 0int)),
            forall|a: int| 0 <= a < old(self).buf@.len() ==> #[trigger] final(self).buf@[a] == old(self).buf@[a],
            entry_kind(final(self).buf@[old(self).buf@.len() as int].data) == KIND_IDENT,
            final(self).marks@ == old(self).marks@.push(old(self).lines@.len() as int),
            final(self).wf(final(interner).strs()),
            final(interner).wf(),
            final(self).toks@ == old(self).toks@.push(TokModel::Ident(ident.source_text@)),
            final(self).buf@.len() == old(self).buf@.len() + 1,
            final(self).open_slots() == 0,
            final(self).str_table == old(self).str_table,
            final(self).lines == old(self).lines,
            old(interner).strs().submap_of(final(interner).strs()),
            final(interner)@ == old(interner)@.insert(
                ident.source_text@,
                final(interner)@[ident.source_text@],
            ),
            final(interner).byte_len() <= old(interner).byte_len() + HEADER_LEN
                + ident.source_text@.len(),
    {
        let ghost old_self = *self;
        let ghost so = interner.strs();
        let ghost t = TokModel::Ident(ident.source_text@);
        let bytes = ident.source_text.get();
        let key = interner.intern(bytes);
        self.buf.push(TokBufEntry::new(KIND_IDENT, key));
        proof {
            self.toks@ = self.toks@.push(t);
            self.positions@ = self.positions@.push((old_self.buf@.len() as int, 0int));
            self.marks@ = self.marks@.push(old_self.lines@.len() as int);
            lemma_append_entry(&old_self, self, so, interner.strs(), t);
        }
    }

    #[verifier::rlimit(30)]
    fn push_static_tok(&mut self, stok: StaticTok, Ghost(strs): Ghost<Map<StrListKey, Seq<u8>>>)
        requires
            old(self).wf(strs),
            old(self).buf@.len() < ADDR_MAX,
        ensures
            old(self).open_slots() > 0 ==> final(self).positions@ == old(self).positions@.push(
                ((old(self).buf@.len() - 1) as int, 3 - old(self).open_slots()),
            ),
            old(self).open_slots() > 0 ==> pack_slot(entry_etc(final(self).buf@.last().data), 3 - old(self).open_slots()) == spec_id(stok) as u32,
            old(self).open_slots() > 0 ==> entry_kind(final(self).buf@.last().data) == KIND_STATIC_PACK,
            old(self).open_slots() > 0 ==> forall|p: int| 0 <= p < 3 - old(self).open_slots() ==> pack_slot(entry_etc(final(self).buf@.last().data), p) == pack_slot(entry_etc(old(self).buf@.last().data), p),
            old(self).open_slots() > 0 ==> forall|a: int| 0 <= a < old(self).buf@.len() - 1 ==> #[trigger] final(self).buf@[a] == old(self).buf@[a],
            old(self).open_slots() == 0 ==> final(self).positions@ == old(self).positions@.push((old(self).buf@.len() as int, 0int)),
            old(self).open_slots() == 0 ==> entry_kind(final(self).buf@.last().data) == KIND_STATIC_PACK && entry_etc(final(self).buf@.last().data) == spec_id(stok) as u32,
            old(self).open_slots() == 0 ==> forall|a: int| 0 <= a < old(self).buf@.len() ==> #[trigger] final(self).buf@[a] == old(self).buf@[a],
            final(self).marks@ == old(self).marks@.push(old(self).lines@.len() as int),
            final(self).wf(strs),
            final(self).toks@ == old(self).toks@.push(TokModel::Static(stok)),
            final(self).buf@.len() <= old(self).buf@.len() + 1,
            old(self).open_slots() > 0 ==> final(self).buf@.len() == old(self).buf@.len()
                && final(self).open_slots() == old(self).open_slots() - 1,
            old(self).open_slots() == 0 ==> final(self).buf@.len() == old(self).buf@.len() + 1
                && final(self).open_slots() == 2,
            final(self).str_table == old(self).str_table,
            final(self).lines == old(self).lines,
    {
        let ghost old_self = *self;
        let ghost t = TokModel::Static(stok);
        let id = stok.id() as u32;
        proof {
            lemma_id_bijective(stok);
        }
        let n = self.buf.len();
        if n > 0 && self.buf[n - 1].kind_id() == KIND_STATIC_PACK {
            let e = self.buf[n - 1].etc();
            let s1 = (e >> 8u32) & 0xffu32;
            let s2 = (e >> 16u32) & 0xffu32;
            proof {
                lemma_pack_bits(e, id);
                assert(old_self.entry_ok(strs, n - 1));
            }
            if s2 == 0 {
                let ghost o: int = if s1 == 0 { 1 } else { 2 };
                let ne = if s1 == 0 {
                    e | (id << 8u32)
                } else {
                    e | (id << 16u32)
                };
                self.buf.set(n - 1, TokBufEntry::new(KIND_STATIC_PACK, ne));
                proof {
                    self.toks@ = self.toks@.push(t);
                    self.positions@ = self.positions@.push(((n - 1) as int, o));
                    self.marks@ = self.marks@.push(old_self.lines@.len() as int);
                    lemma_fold_into_pack(&old_self, self, strs, o, e, ne, stok);
                }
                return;
            }
        }
        self.buf.push(TokBufEntry::new(KIND_STATIC_PACK, id));
        proof {
            lemma_pack_bits(0, id);
            if n > 0 && old_self.buf@[n - 1].data >> 24u32 == KIND_STATIC_PACK {
                let e = entry_etc(old_self.buf@[n - 1].data);
                lemma_pack_bits(e, id);
                assert(old_self.entry_ok(strs, n - 1));
            }
            self.toks@ = self.toks@.push(t);
            self.positions@ = self.positions@.push((old_self.buf@.len() as int, 0int));
            self.marks@ = self.marks@.push(old_self.lines@.len() as int);
            lemma_append_entry(&old_self, self, strs, strs, t);
        }
    }
}

/// The first `m` linebreaks were recorded at addresses below `a`, the others at `a` or above.
pub open spec fn lines_split(lines: Seq<u32>, m: int, a: int) -> bool {
    &&& 0 <= m <= lines.len()
    &&& forall|k: int| 0 <= k < m ==> lines[k] < a
    &&& forall|k: int| m <= k < lines.len() ==> lines[k] >= a
}

/// A split point of the linebreak addresses is unique: [`TokBuf::get_line_no`] returns the one
/// that a token's mark gives.
pub proof fn lemma_lines_split_unique(lines: Seq<u32>, m1: int, m2: int, a: int)
    requires
        lines_split(lines, m1, a),
        lines_split(lines, m2, a),
    ensures
        m1 == m2,
{
    if m1 < m2 {
        assert(lines[m1] < a);
    } else if m2 < m1 {
        assert(lines[m2] < a);
    }
}

/// The token a read returned, if any.
pub open spec fn opt_model(r: Option<Tok>) -> Option<TokModel> {
    match r {
        Some(t) => Some(t@),
        None => None,
    }
}

/// Bytes a token keeps in a side table.
pub open spec fn payload_len(t: TokModel) -> nat {
    match t {
        TokModel::StrLiteral(s) => s.len(),
        TokModel::DecIntLiteral(s) => s.len(),
        TokModel::Ident(s) => s.len(),
        TokModel::LineComment(s) => s.len(),
        _ => 0,
    }
}

/// The kind id of the entry that holds a non-static token.
pub open spec fn tok_kind(t: TokModel) -> u32 {
    match t {
        TokModel::Static(_) => KIND_STATIC_PACK,
        TokModel::StrLiteral(_) => KIND_STR_LITERAL,
        TokModel::DecIntLiteral(_) => KIND_DEC_INT_LITERAL,
        TokModel::Ident(_) => KIND_IDENT,
        TokModel::Linebreak => KIND_LINEBREAK,
        TokModel::Align(_) => KIND_ALIGN,
        TokModel::LineComment(_) => KIND_LINE_COMMENT,
        TokModel::Unexpected(_) => KIND_UNEXPECTED,
    }
}

/// Linebreaks a token holds.
pub open spec fn tok_newlines(t: TokModel) -> nat {
    match t {
        TokModel::Linebreak => 1,
        TokModel::StrLiteral(s) => newline_count(s),
        _ => 0,
    }
}

impl TokBuf {
    /// Appends a token. Static tokens go into the last entry when it is a pack with a free
    /// slot; identifiers are interned.
    #[verifier::rlimit(30)]
    pub fn push(&mut self, tok: Tok, interner: &mut StrInterner)
        requires
            old(self).wf(old(interner).strs()),
            old(interner).wf(),
            tok.valid(),
            old(self).room_for(old(interner), tok@),
        ensures
            final(self).wf(final(interner).strs()),
            final(interner).wf(),
            final(self).toks() == old(self).toks().push(tok@),
            old(interner).strs().submap_of(final(interner).strs()),
            final(self).spec_len() <= old(self).spec_len() + 1,
            final(self).str_table_len() <= old(self).str_table_len() + HEADER_LEN + payload_len(
                tok@,
            ),
            final(interner).byte_len() <= old(interner).byte_len() + HEADER_LEN + payload_len(
                tok@,
            ),
            final(self).lines() == old(self).lines() + Seq::new(
                tok_newlines(tok@),
                |i: int| old(self).spec_len() as u32,
            ),
            final(self).marks() == old(self).marks().push(old(self).lines().len() as int),
            tok is Static && old(self).open_slots() > 0 ==> final(self).positions() == old(self).positions().push(
                ((old(self).spec_len() - 1) as int, 3 - old(self).open_slots()),
            ),
            tok is Static && old(self).open_slots() > 0 ==> ({
                let e = entry_etc(final(self).entry_data(old(self).spec_len() - 1));
                let e0 = entry_etc(old(self).entry_data(old(self).spec_len() - 1));
                &&& entry_kind(final(self).entry_data(old(self).spec_len() - 1)) == KIND_STATIC_PACK
                &&& pack_slot(e, 3 - old(self).open_slots()) == spec_id(tok@->Static_0) as u32
                &&& forall|p: int| 0 <= p < 3 - old(self).open_slots() ==> pack_slot(e, p) == pack_slot(e0, p)
            }),
            tok is Static && old(self).open_slots() > 0 ==> forall|a: int| 0 <= a < old(self).spec_len() - 1 ==> #[trigger] final(self).entry_data(a) == old(self).entry_data(a),
            !(tok is Static && old(self).open_slots() > 0) ==> final(self).positions() == old(self).positions().push(
                (old(self).spec_len() as int, 0int),
            ),
            !(tok is Static && old(self).open_slots() > 0) ==> forall|a: int| 0 <= a < old(self).spec_len() ==> #[trigger] final(self).entry_data(a) == old(self).entry_data(a),
            !(tok is Static && old(self).open_slots() > 0) ==> entry_kind(final(self).entry_data(old(self).spec_len() as int)) == tok_kind(tok@),
            tok is Static && old(self).open_slots() == 0 ==> entry_etc(final(self).entry_data(old(self).spec_len() as int)) == spec_id(tok@->Static_0) as u32,
            tok is Static && old(self).open_slots() > 0 ==> final(self).spec_len()
                == old(self).spec_len() && final(self).open_slots() == old(self).open_slots() - 1,
            tok is Static && old(self).open_slots() == 0 ==> final(self).spec_len()
                == old(self).spec_len() + 1 && final(self).open_slots() == 2,
            !(tok is Static) ==> final(self).spec_len() == old(self).spec_len() + 1
                && final(self).open_slots() == 0,
            tok is Ident ==> final(interner)@ == old(interner)@.insert(
                tok@->Ident_0,
                final(interner)@[tok@->Ident_0],
            ),
            !(tok is Ident) ==> *final(interner) == *old(interner),
    {
        let ghost strs = interner.strs();
        match tok {
            Tok::Static(stok) => self.push_static_tok(stok, Ghost(strs)),
            Tok::StrLiteral(lit) => self.push_str_literal(lit, Ghost(strs)),
            Tok::DecIntLiteral(lit) => self.push_dec_int_literal(lit, Ghost(strs)),
            Tok::Ident(ident) => self.push_ident(ident, interner),
            Tok::Linebreak => {
                self.push_narrow(KIND_LINEBREAK, 0, Ghost(strs));
                assert(self.lines@ =~= old(self).lines@ + Seq::new(
                    1,
                    |i: int| old(self).buf@.len() as u32,
                ));
            },
            Tok::Align(align) => self.push_narrow(KIND_ALIGN, align.count, Ghost(strs)),
            Tok::LineComment(lc) => self.push_line_comment(lc, Ghost(strs)),
            Tok::Unexpected(unexpected) => self.push_narrow(
                KIND_UNEXPECTED,
                unexpected.ch as u32,
                Ghost(strs),
            ),
        }
        assert(self.lines@ =~= old(self).lines@ + Seq::new(
            tok_newlines(tok@),
            |i: int| old(self).buf@.len() as u32,
        ));
    }

    /// Every token of the buffer, in order.
    pub fn iter<'b>(&'b self, interner: &'b StrInterner) -> (r: Vec<Tok<'b>>)
        requires
            self.wf(interner.strs()),
            interner.wf(),
        ensures
            r@.len() == self.toks().len(),
            forall|i: int| 0 <= i < r@.len() ==> (#[trigger] r@[i])@ == self.toks()[i] && r@[i].valid(),
    {
        let mut cursor = TokCursor::new(self, interner);
        let mut r: Vec<Tok<'b>> = Vec::new();
        while cursor.has_next()
            invariant
                cursor.wf(),
                cursor.tokbuf() == self,
                cursor.interner() == interner,
                r@.len() == cursor.index(),
                forall|i: int| 0 <= i < r@.len() ==> (#[trigger] r@[i])@ == self.toks()[i] && r@[i].valid(),
            decreases self.toks().len() - cursor.index(),
        {
            match cursor.read() {
                Some(t) => r.push(t),
                None => {},
            }
            cursor.forward();
        }
        r
    }

    /// The token that `key` locates, if there is one.
    #[verifier::rlimit(30)]
    pub fn get<'b>(&'b self, interner: &'b StrInterner, key: Key) -> (r: Option<Tok<'b>>)
        requires
            self.wf(interner.strs()),
            interner.wf(),
        ensures
            opt_model(r) == self.tok_at(interner.strs(), key.spec_addr() as int, key.spec_pack_idx() as int),
            r matches Some(t) ==> t.valid(),
    {
        let a = key.addr() as usize;
        let p = key.pack_idx();
        if a >= self.buf.len() {
            return None;
        }
        let entry = self.buf[a];
        let e = entry.etc();
        let kind = EntryType::from_id(entry.kind_id() as u8);
        proof {
            assert(self.entry_ok(interner.strs(), a as int));
            let d = entry.data;
            assert(d >> 24u32 <= 0xffu32) by (bit_vector);
        }
        match kind {
            Some(EntryType::StaticPack) => {
                if p > 2 {
                    return None;
                }
                let id = if p == 0 {
                    e & 0xffu32
                } else if p == 1 {
                    (e >> 8u32) & 0xffu32
                } else {
                    (e >> 16u32) & 0xffu32
                };
                if id == 0 {
                    return None;
                }
                match StaticTok::from_id(id as u8) {
                    Some(stok) => Some(Tok::Static(stok)),
                    None => None,
                }
            },
            Some(t) => {
                if p != 0 {
                    return None;
                }
                match t {
                    EntryType::StrLiteral => Some(
                        Tok::StrLiteral(StrLiteral { str_ref: self.make_str_table_ref(e) }),
                    ),
                    EntryType::DecIntLiteral => Some(
                        Tok::DecIntLiteral(DecIntLiteral { str_ref: self.make_str_table_ref(e) }),
                    ),
                    EntryType::Ident => {
                        let list = interner.str_list();
                        Some(Tok::Ident(Ident { source_text: StrRef::List(StrListRef::new(list, e)) }))
                    },
                    EntryType::Linebreak => Some(Tok::Linebreak),
                    EntryType::Align => Some(Tok::Align(Align { count: e })),
                    EntryType::LineComment => Some(
                        Tok::LineComment(LineComment { str_ref: self.make_str_table_ref(e) }),
                    ),
                    EntryType::Unexpected => Some(Tok::Unexpected(Unexpected { ch: e.truncate() })),
                    EntryType::StaticPack => None,
                }
            },
            None => None,
        }
    }

    /// The 0-based index of the line where the token at `tok_addr` begins: the number of
    /// linebreaks held by tokens before it.
    pub fn get_line_no(&self, tok_addr: u32) -> (r: usize)
        requires
            exists|strs: Map<StrListKey, Seq<u8>>| self.wf(strs),
        ensures
            lines_split(self.lines(), r as int, tok_addr as int),
    {
        let mut lo: usize = 0;
        let mut hi: usize = self.lines.len();
        while lo < hi
            invariant
                lo <= hi <= self.lines@.len(),
                forall|i: int, j: int|
                    0 <= i <= j < self.lines@.len() ==> self.lines@[i] <= self.lines@[j],
                forall|i: int| 0 <= i < lo ==> self.lines@[i] < tok_addr,
                forall|i: int| hi <= i < self.lines@.len() ==> self.lines@[i] >= tok_addr,
            decreases hi - lo,
        {
            let mid = lo + (hi - lo) / 2;
            if self.lines[mid] < tok_addr {
                lo = mid + 1;
            } else {
                hi = mid;
            }
        }
        lo
    }

    /// Releases spare capacity once the buffer is complete.
    #[verifier::rlimit(30)]
    pub fn shrink_to_fit(&mut self)
        ensures
            forall|strs: Map<StrListKey, Seq<u8>>| old(self).wf(strs) ==> #[trigger] final(self).wf(strs),
            final(self).toks() == old(self).toks(),
            final(self).positions() == old(self).positions(),
            final(self).spec_len() == old(self).spec_len(),
            final(self).lines() == old(self).lines(),
            final(self).marks() == old(self).marks(),
            final(self).str_table_len() == old(self).str_table_len(),
    {
        self.str_table.shrink_to_fit();
        shrink_vec(&mut self.buf);
        shrink_vec(&mut self.lines);
        proof {
            assert forall|strs: Map<StrListKey, Seq<u8>>| old(self).wf(strs) implies #[trigger] self.wf(strs) by {
                assert forall|x: int, p: int| 0 <= x < self.buf@.len() implies self.tok_at(strs, x, p) == old(self).tok_at(strs, x, p) by {
                    assert(old(self).entry_ok(strs, x));
                    lemma_tok_at_frame(old(self), self, strs, strs, x, p);
                }
                assert forall|i: int| 0 <= i < self.buf@.len() implies #[trigger] self.entry_ok(strs, i) by {
                    assert(old(self).entry_ok(strs, i));
                }
            }
        }
    }

    /// Every token position lies inside the buffer, in a pack slot 0 to 2.
    pub proof fn lemma_positions_bounded(&self, strs: Map<StrListKey, Seq<u8>>)
        requires
            self.wf(strs),
        ensures
            forall|i: int|
                0 <= i < self.toks().len() ==> 0 <= #[trigger] self.positions()[i].0 < self.spec_len()
                    && 0 <= self.positions()[i].1 <= 2,
            self.spec_len() <= ADDR_MAX,
    {
        assert forall|i: int| 0 <= i < self.toks().len() implies 0 <= #[trigger] self.positions()[i].0 < self.spec_len()
            && 0 <= self.positions()[i].1 <= 2 by {
            assert(self.tok_at(strs, self.positions@[i].0, self.positions@[i].1) == Some(self.toks@[i]));
        }
    }

    /// A token's mark splits the linebreak addresses at the token's address.
    pub proof fn lemma_marks_split(&self, strs: Map<StrListKey, Seq<u8>>, i: int)
        requires
            self.wf(strs),
            0 <= i < self.toks().len(),
        ensures
            lines_split(self.lines(), self.marks()[i], self.positions()[i].0),
    {
        assert(lines_split(self.lines@, self.marks@[i], self.positions@[i].0));
    }

    /// The invariants of every entry: a kind id from 1 to 8; in a static pack, slot ids from 1
    /// to 31 with slot 0 filled and no empty slot below a filled one; payload keys that exist.
    pub proof fn lemma_entry_facts(&self, strs: Map<StrListKey, Seq<u8>>, a: int)
        requires
            self.wf(strs),
            0 <= a < self.spec_len(),
        ensures
            ({
                let d = self.entry_data(a);
                let k = entry_kind(d);
                let e = entry_etc(d);
                &&& 1 <= k <= 8
                &&& k == KIND_STATIC_PACK ==> {
                    &&& 1 <= pack_slot(e, 0) <= 31
                    &&& pack_slot(e, 1) <= 31
                    &&& pack_slot(e, 2) <= 31
                    &&& pack_slot(e, 1) == 0 ==> pack_slot(e, 2) == 0
                }
                &&& (k == KIND_STR_LITERAL || k == KIND_DEC_INT_LITERAL || k == KIND_LINE_COMMENT)
                    ==> self.table_strs().contains_key(e)
                &&& k == KIND_IDENT ==> strs.contains_key(e)
                &&& k == KIND_UNEXPECTED ==> e <= 0xff
            }),
    {
        assert(self.entry_ok(strs, a));
    }

    /// Every token pushed reads back, at its position, as the token that was pushed.
    pub proof fn lemma_read_back(&self, strs: Map<StrListKey, Seq<u8>>, i: int)
        requires
            self.wf(strs),
            0 <= i < self.toks().len(),
        ensures
            self.tok_at(strs, self.positions()[i].0, self.positions()[i].1) == Some(self.toks()[i]),
    {
        assert(self.tok_at(strs, self.positions@[i].0, self.positions@[i].1) == Some(self.toks@[i]));
    }
}

/// A position in a [`TokBuf`], moving forward one token at a time.
#[derive(Clone, Copy)]
pub struct TokCursor<'a> {
    pos: Key,
    tokbuf: &'a TokBuf,
    interner: &'a StrInterner,
    index: Ghost<int>,
}

impl<'a> TokCursor<'a> {
    pub closed spec fn tokbuf(&self) -> &'a TokBuf {
        self.tokbuf
    }

    pub closed spec fn interner(&self) -> &'a StrInterner {
        self.interner
    }

    /// How many tokens lie before the cursor.
    pub closed spec fn index(&self) -> int {
        self.index@
    }

    pub closed spec fn key(&self) -> Key {
        self.pos
    }

    pub closed spec fn wf(&self) -> bool {
        let strs = self.interner.strs();
        let len = self.tokbuf.toks().len();
        &&& self.tokbuf.wf(strs)
        &&& self.interner.wf()
        &&& 0 <= self.index@ <= len
        &&& (self.pos.spec_addr() as int, self.pos.spec_pack_idx() as int) == if self.index@ < len {
            self.tokbuf.positions()[self.index@]
        } else {
            self.tokbuf.end_pos()
        }
    }

    pub fn new(tokbuf: &'a TokBuf, interner: &'a StrInterner) -> (r: Self)
        requires
            tokbuf.wf(interner.strs()),
            interner.wf(),
        ensures
            r.wf(),
            r.index() == 0,
            r.tokbuf() == tokbuf,
            r.interner() == interner,
    {
        proof {
            tokbuf.lemma_positions_bounded(interner.strs());
        }
        TokCursor { pos: Key::default(), tokbuf, interner, index: Ghost(0) }
    }

    /// The cursor's key is the position of the token at its index, or the end position.
    pub proof fn lemma_key_pos(&self)
        requires
            self.wf(),
        ensures
            (self.key().spec_addr() as int, self.key().spec_pack_idx() as int) == self.tokbuf().pos_of(self.index()),
    {
    }

    /// The cursor never passes the end of the buffer.
    pub proof fn lemma_index_bounded(&self)
        requires
            self.wf(),
        ensures
            0 <= self.index() <= self.tokbuf().toks().len(),
    {
    }

    /// The cursor's key locates the token at its index.
    pub proof fn lemma_key_reads(&self)
        requires
            self.wf(),
            self.index() < self.tokbuf().toks().len(),
        ensures
            self.tokbuf().tok_at(
                self.interner().strs(),
                self.key().spec_addr() as int,
                self.key().spec_pack_idx() as int,
            ) == Some(self.tokbuf().toks()[self.index()]),
    {
        self.tokbuf.lemma_read_back(self.interner.strs(), self.index@);
    }

    /// The token at the cursor, or nothing at the end of the buffer.
    pub fn read(&self) -> (r: Option<Tok<'a>>)
        requires
            self.wf(),
        ensures
            self.index() < self.tokbuf().toks().len() ==> r is Some && r->Some_0@ == self.tokbuf().toks()[self.index()] && r->Some_0.valid(),
            self.index() == self.tokbuf().toks().len() ==> r is None,
            0 <= self.index() <= self.tokbuf().toks().len(),
    {
        proof {
            if self.index@ < self.tokbuf.toks().len() {
                assert(self.tokbuf.tok_at(self.interner.strs(), self.tokbuf.positions()[self.index@].0, self.tokbuf.positions()[self.index@].1) == Some(self.tokbuf.toks()[self.index@]));
            }
        }
        self.tokbuf.get(self.interner, self.pos)
    }

    /// The key of the token at the cursor; at the end of the buffer, the key just past the last
    /// entry.
    pub fn at(&self) -> (r: Key)
        ensures
            r == self.key(),
    {
        self.pos
    }

    pub fn has_next(&self) -> (r: bool)
        requires
            self.wf(),
        ensures
            r == (self.index() < self.tokbuf().toks().len()),
    {
        proof {
            self.tokbuf.lemma_positions_bounded(self.interner.strs());
            if self.index@ < self.tokbuf.toks().len() {
                assert(0 <= self.tokbuf.positions()[self.index@].0 < self.tokbuf.spec_len());
            }
        }
        (self.pos.addr() as usize) < self.tokbuf.len()
    }

    /// Returns the token at the cursor and moves past it.
    pub fn next(&mut self) -> (r: Option<Tok<'a>>)
        requires
            old(self).wf(),
        ensures
            final(self).wf(),
            final(self).tokbuf() == old(self).tokbuf(),
            final(self).interner() == old(self).interner(),
            old(self).index() < old(self).tokbuf().toks().len() ==> r is Some,
            old(self).index() < old(self).tokbuf().toks().len() ==> r->Some_0@ == old(self).tokbuf().toks()[old(self).index()],
            old(self).index() < old(self).tokbuf().toks().len() ==> final(self).index() == old(self).index() + 1,
            old(self).index() == old(self).tokbuf().toks().len() ==> r is None,
            old(self).index() == old(self).tokbuf().toks().len() ==> final(self).index() == old(self).index(),
    {
        let elapsed = self.read();
        self.forward();
        elapsed
    }

    /// Moves past the token at the cursor; at the end of the buffer, does nothing.
    #[verifier::rlimit(30)]
    pub fn forward(&mut self)
        requires
            old(self).wf(),
        ensures
            final(self).wf(),
            final(self).tokbuf() == old(self).tokbuf(),
            final(self).interner() == old(self).interner(),
            final(self).index() == if old(self).index() < old(self).tokbuf().toks().len() {
                old(self).index() + 1
            } else {
                old(self).index()
            },
            old(self).index() < old(self).tokbuf().toks().len() ==> (
                final(self).key().spec_addr() as int,
                final(self).key().spec_pack_idx() as int,
            ) == old(self).tokbuf().next_pos(
                old(self).interner().strs(),
                old(self).key().spec_addr() as int,
                old(self).key().spec_pack_idx() as int,
            ),
            old(self).index() == old(self).tokbuf().toks().len() ==> final(self).key() == old(self).key(),
    {
        if self.read().is_none() {
            return;
        }
        let ghost strs = self.interner.strs();
        let ghost i = self.index@;
        proof {
            self.tokbuf.lemma_positions_bounded(strs);
            assert(i < self.tokbuf.toks().len());
            assert(0 <= self.tokbuf.positions()[i].0 < self.tokbuf.spec_len());
            assert(0 <= self.tokbuf.positions()[i].1 <= 2);
        }
        let next_pack_key = Key::new(self.pos.addr(), self.pos.pack_idx() + 1);
        if self.tokbuf.get(self.interner, next_pack_key).is_some() {
            self.pos = next_pack_key;
        } else {
            self.pos = Key::new(self.pos.addr() + 1, 0);
        }
        proof {
            self.index@ = i + 1;
        }
    }
}

/// One push of the packing rule: from the positions so far, the entry count and the free slots
/// of the last pack, to those after token `t`. A static token goes into the next free slot of the
/// last pack, or into a new pack; every other token takes an entry of its own.
pub open spec fn layout_step(l: (Seq<(int, int)>, nat, nat), t: TokModel) -> (Seq<(int, int)>, nat, nat) {
    let (ps, len, open) = l;
    if t is Static && open > 0 {
        (ps.push(((len - 1) as int, 3 - open)), len, (open - 1) as nat)
    } else if t is Static {
        (ps.push((len as int, 0int)), len + 1, 2)
    } else {
        (ps.push((len as int, 0int)), len + 1, 0)
    }
}

/// Where each of `toks` lands when pushed in order to an empty buffer, the number of entries,
/// and the free slots of the last pack.
pub open spec fn layout(toks: Seq<TokModel>) -> (Seq<(int, int)>, nat, nat)
    decreases toks.len(),
{
    if toks.len() == 0 {
        (Seq::empty(), 0, 0)
    } else {
        layout_step(layout(toks.drop_last()), toks.last())
    }
}

/// Entries and free pack slots after pushing `n` static tokens, one at a time, to a buffer of
/// `len` entries whose last pack has `open` free slots (see the contract of [`TokBuf::push`]).
pub open spec fn static_run(len: nat, open: nat, n: nat) -> (nat, nat)
    decreases n,
{
    if n == 0 {
        (len, open)
    } else if open > 0 {
        static_run(len, (open - 1) as nat, (n - 1) as nat)
    } else {
        static_run(len + 1, 2, (n - 1) as nat)
    }
}

proof fn lemma_static_run(len: nat, open: nat, n: nat)
    requires
        open <= 2,
    ensures
        static_run(len, open, n).0 == len + if n <= open {
            0
        } else {
            (n - open + 2) as nat / 3
        },
    decreases n,
{
    if n > 0 {
        if open > 0 {
            lemma_static_run(len, (open - 1) as nat, (n - 1) as nat);
        } else {
            lemma_static_run(len + 1, 2, (n - 1) as nat);
            assert((n + 2) as nat / 3 == 1 + (n - 1) as nat / 3) by (nonlinear_arith)
                requires
                    n >= 1,
            ;
            if n - 1 > 2 {
                assert(((n - 1) - 2 + 2) as nat / 3 == (n - 1) as nat / 3);
            }
        }
    }
}

/// A run of `n` static tokens pushed where no pack has a free slot occupies exactly
/// `ceil(n / 3)` new entries.
pub proof fn lemma_static_pack_density(len: nat, n: nat)
    ensures
        static_run(len, 0, n).0 == len + (n + 2) / 3,
{
    lemma_static_run(len, 0, n);
    if n == 0 {
        assert((0 + 2) / 3 == 0nat);
    }
}

/// Number of linebreak bytes in `s`.
pub open spec fn newline_count(s: Seq<u8>) -> nat
    decreases s.len(),
{
    if s.len() == 0 {
        0
    } else {
        newline_count(s.drop_last()) + if s.last() == ascii::LINEBREAK {
            1nat
        } else {
            0nat
        }
    }
}

proof fn lemma_newline_count_step(s: Seq<u8>, i: int)
    requires
        0 <= i < s.len(),
    ensures
        newline_count(s.subrange(0, i + 1)) == newline_count(s.subrange(0, i)) + if s[i]
            == ascii::LINEBREAK {
            1nat
        } else {
            0nat
        },
{
    assert(s.subrange(0, i + 1).drop_last() =~= s.subrange(0, i));
}

} // verus!
