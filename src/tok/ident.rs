use vstd::prelude::*;
use crate::util::ascii::{self, spec_is_alphabetic, spec_is_numeric};
use crate::util::str_list::StrRef;

verus! {

/// An identifier token.
#[derive(Clone, Copy)]
pub struct Ident<'a> {
    pub source_text: StrRef<'a>,
}

impl<'a> Ident<'a> {
    pub fn new(slice: &'a [u8]) -> (r: Self)
        ensures
            r.source_text == StrRef::Slice(slice),
    {
        Ident { source_text: StrRef::Slice(slice) }
    }
}

/// A byte that may continue an identifier: a letter, a digit or an underscore.
pub open spec fn spec_is_ident_ch(ch: u8) -> bool {
    spec_is_alphabetic(ch) || spec_is_numeric(ch) || ch == ascii::UNDERSCORE
}

/// A byte that may begin an identifier: a letter or an underscore.
pub open spec fn spec_is_ident_prefix_ch(ch: u8) -> bool {
    spec_is_alphabetic(ch) || ch == ascii::UNDERSCORE
}

/// Every byte of `s` may continue an identifier.
pub open spec fn spec_is_ident_chs(s: Seq<u8>) -> bool {
    forall|i: int| 0 <= i < s.len() ==> spec_is_ident_ch(#[trigger] s[i])
}

/// `s` is a whole identifier.
pub open spec fn spec_is_ident_str(s: Seq<u8>) -> bool {
    s.len() > 0 && spec_is_ident_prefix_ch(s[0]) && spec_is_ident_chs(s)
}

pub fn is_ident_ch(ch: u8) -> (r: bool)
    ensures
        r == spec_is_ident_ch(ch),
{
    ascii::is_alphanumeric_ch(ch) || ch == ascii::UNDERSCORE
}

pub fn is_ident_chs(s: &[u8]) -> (r: bool)
    ensures
        r == spec_is_ident_chs(s@),
{
    let mut i: usize = 0;
    while i < s.len()
        invariant
            i <= s@.len(),
            forall|j: int| 0 <= j < i ==> spec_is_ident_ch(#[trigger] s@[j]),
        decreases s@.len() - i,
    {
        if !is_ident_ch(s[i]) {
            return false;
        }
        i = i + 1;
    }
    true
}

pub fn is_ident_prefix_ch(ch: u8) -> (r: bool)
    ensures
        r == spec_is_ident_prefix_ch(ch),
{
    ascii::is_alphabetic_ch(ch) || ch == ascii::UNDERSCORE
}

pub fn is_ident_str(s: &[u8]) -> (r: bool)
    ensures
        r == spec_is_ident_str(s@),
{
    if s.len() == 0 {
        return false;
    }
    if !is_ident_prefix_ch(s[0]) {
        return false;
    }
    is_ident_chs(s)
}

/// Every byte that may begin an identifier: the underscore, then the letters in ascending order.
pub fn iter_ident_prefix_chs() -> (r: Vec<u8>)
    ensures
        forall|ch: u8| spec_is_ident_prefix_ch(ch) <==> r@.contains(ch),
        r@.len() == 53,
{
    let mut r: Vec<u8> = Vec::new();
    r.push(ascii::UNDERSCORE);
    let mut ch: u8 = 65;
    while ch <= 90
        invariant
            65 <= ch <= 91,
            r@.len() == 1 + (ch - 65),
            r@[0] == ascii::UNDERSCORE,
            forall|i: int| 1 <= i < r@.len() ==> #[trigger] r@[i] == 64 + i,
        decreases 91 - ch,
    {
        r.push(ch);
        ch = ch + 1;
    }
    ch = 97;
    while ch <= 122
        invariant
            97 <= ch <= 123,
            r@.len() == 27 + (ch - 97),
            r@[0] == ascii::UNDERSCORE,
            forall|i: int| 1 <= i < 27 ==> #[trigger] r@[i] == 64 + i,
            forall|i: int| 27 <= i < r@.len() ==> #[trigger] r@[i] == 70 + i,
        decreases 123 - ch,
    {
        r.push(ch);
        ch = ch + 1;
    }
    assert forall|c: u8| spec_is_ident_prefix_ch(c) <==> r@.contains(c) by {
        if spec_is_ident_prefix_ch(c) {
            if c == ascii::UNDERSCORE {
                assert(r@[0] == c);
            } else if c <= 90 {
                assert(r@[c - 64] == c);
            } else {
                assert(r@[c - 70] == c);
            }
        }
        if r@.contains(c) {
            let i = choose|i: int| 0 <= i < r@.len() && r@[i] == c;
            if i >= 27 {
                assert(r@[i] == 70 + i);
            } else if i >= 1 {
                assert(r@[i] == 64 + i);
            }
        }
    }
    r
}

} // verus!
