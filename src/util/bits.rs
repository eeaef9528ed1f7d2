use vstd::prelude::*;

verus! {

/// Narrowing conversion that keeps the low-order bits.
pub trait Truncate<S>: Sized {
    spec fn truncated(self) -> S;

    fn truncate(self) -> (r: S)
        ensures
            r == self.truncated(),
    ;
}

impl Truncate<u8> for u32 {
    open spec fn truncated(self) -> u8 {
        self as u8
    }

    fn truncate(self) -> (r: u8) {
        self as u8
    }
}

/// `31` raised to `e`, modulo the word size.
pub open spec fn pow31_wrapped(e: nat) -> usize
    decreases e,
{
    if e == 0 {
        1usize
    } else {
        vstd::wrapping::usize_specs::wrapping_mul(31usize, pow31_wrapped((e - 1) as nat))
    }
}

/// The hash of the first `n` bytes of `s`: the sum of `31^(|s| - i + 1) * s[i]` over `i < n`,
/// modulo the word size.
pub open spec fn hash_prefix(s: Seq<u8>, n: nat) -> usize
    decreases n,
{
    if n == 0 || n > s.len() {
        0usize
    } else {
        let i = (n - 1) as int;
        vstd::wrapping::usize_specs::wrapping_add(
            hash_prefix(s, (n - 1) as nat),
            vstd::wrapping::usize_specs::wrapping_mul(
                pow31_wrapped((s.len() - i + 1) as nat),
                s[i] as usize,
            ),
        )
    }
}

pub open spec fn spec_fast_hash(s: Seq<u8>) -> usize {
    hash_prefix(s, s.len())
}

fn pow31(e: usize) -> (r: usize)
    ensures
        r == pow31_wrapped(e as nat),
{
    let mut r: usize = 1;
    let mut i: usize = 0;
    while i < e
        invariant
            i <= e,
            r == pow31_wrapped(i as nat),
        decreases e - i,
    {
        r = 31usize.wrapping_mul(r);
        i = i + 1;
    }
    r
}

/// Fast but insecure hash function in the style of the JDK's string hash.
pub fn fast_hash(s: &[u8]) -> (r: usize)
    ensures
        r == spec_fast_hash(s@),
{
    let mut hash: usize = 0;
    let mut i: usize = 0;
    while i < s.len()
        invariant
            i <= s@.len(),
            hash == hash_prefix(s@, i as nat),
        decreases s@.len() - i,
    {
        // 31^(|s| - i + 1), one factor at a time so that the exponent cannot overflow.
        let term = 31usize.wrapping_mul(pow31(s.len() - i)).wrapping_mul(s[i] as usize);
        hash = hash.wrapping_add(term);
        i = i + 1;
    }
    hash
}

} // verus!
