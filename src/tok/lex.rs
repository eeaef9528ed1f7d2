use vstd::prelude::*;
use crate::tok::ident::{
    Ident, is_ident_ch, is_ident_str, iter_ident_prefix_chs, spec_is_ident_ch,
    spec_is_ident_prefix_ch, spec_is_ident_str,
};
use crate::tok::tok::{
    Align, DecIntLiteral, LineComment, StaticTok, StrLiteral, Tok, TokModel, Unexpected,
    all_static_toks, spec_source_text, STATIC_TOK_COUNT,
};
use crate::tok::tokbuf::{TokBuf, ADDR_MAX, ETC_MAX, newline_count, tok_newlines, lines_split, layout, layout_step};
use crate::util::ascii::{self, spec_is_numeric};
use crate::util::prefix_tree::PrefixTree;
use crate::util::str_interner::StrInterner;
use crate::util::str_list::HEADER_LEN;
use vstd::slice::slice_subrange;

verus! {

/// What the bytes at the lexer's position begin.
#[derive(Clone, Copy, PartialEq, Eq, Structural)]
pub enum Prefix {
    DoubleQuote,
    Digit,
    Static(StaticTok),
    Linebreak,
    Space,
    DoubleForwardSlash,
    IdentPrefixCh,
}

/// The static token whose text is `s`, among the first `i` static tokens; a later one wins.
pub open spec fn static_upto(s: Seq<u8>, i: int) -> Option<StaticTok>
    decreases i,
{
    if i <= 0 {
        None
    } else if s == spec_source_text(all_static_toks()[i - 1]) {
        Some(all_static_toks()[i - 1])
    } else {
        static_upto(s, i - 1)
    }
}

/// The prefixes the lexer dispatches on, each with its category. Where two entries share a
/// sequence (a single space), the later one of the dictionary's construction wins.
pub open spec fn prefix_dict(s: Seq<u8>) -> Option<Prefix> {
    if s.len() == 1 && spec_is_ident_prefix_ch(s[0]) {
        Some(Prefix::IdentPrefixCh)
    } else if s == seq![ascii::FORWARDSLASH, ascii::FORWARDSLASH] {
        Some(Prefix::DoubleForwardSlash)
    } else if s == seq![ascii::SPACE] {
        Some(Prefix::Space)
    } else if s == seq![ascii::LINEBREAK] {
        Some(Prefix::Linebreak)
    } else if static_upto(s, STATIC_TOK_COUNT as int) is Some {
        Some(Prefix::Static(static_upto(s, STATIC_TOK_COUNT as int).unwrap()))
    } else if s.len() == 1 && spec_is_numeric(s[0]) {
        Some(Prefix::Digit)
    } else if s == seq![ascii::DOUBLE_QUOTE] {
        Some(Prefix::DoubleQuote)
    } else {
        None
    }
}

/// The category of the longest prefix of `s`, no longer than `n`, in the dictionary.
pub open spec fn dict_longest(s: Seq<u8>, n: int) -> Option<Prefix>
    decreases n,
{
    if n < 0 || n > s.len() {
        None
    } else if prefix_dict(s.take(n)) is Some {
        prefix_dict(s.take(n))
    } else if n == 0 {
        None
    } else {
        dict_longest(s, n - 1)
    }
}

/// The category of the longest prefix of `s` in the dictionary.
pub open spec fn classify(s: Seq<u8>) -> Option<Prefix> {
    dict_longest(s, s.len() as int)
}

/// The first index from `i` on where `p` fails, or the length of `s`.
pub open spec fn scan(s: Seq<u8>, i: int, p: spec_fn(u8) -> bool) -> int
    decreases s.len() - i,
{
    if i < 0 || i >= s.len() || !p(s[i]) {
        if i < 0 {
            0
        } else if i > s.len() {
            s.len() as int
        } else {
            i
        }
    } else {
        scan(s, i + 1, p)
    }
}

pub open spec fn is_not(b: u8) -> spec_fn(u8) -> bool {
    |c: u8| c != b
}

pub open spec fn is_byte(b: u8) -> spec_fn(u8) -> bool {
    |c: u8| c == b
}

pub open spec fn is_digit() -> spec_fn(u8) -> bool {
    |c: u8| spec_is_numeric(c)
}

pub open spec fn is_ident_cont() -> spec_fn(u8) -> bool {
    |c: u8| spec_is_ident_ch(c)
}

/// The token that starts at `pos`, and the position after it.
pub open spec fn lex_step(s: Seq<u8>, pos: int) -> (TokModel, int) {
    let rem = s.subrange(pos, s.len() as int);
    match classify(rem) {
        Some(Prefix::DoubleQuote) => {
            let e = scan(s, pos + 1, is_not(ascii::DOUBLE_QUOTE));
            let end = if e < s.len() {
                e + 1
            } else {
                e
            };
            (TokModel::StrLiteral(s.subrange(pos, end)), end)
        },
        Some(Prefix::Digit) => {
            let e = scan(s, pos, is_digit());
            (TokModel::DecIntLiteral(s.subrange(pos, e)), e)
        },
        Some(Prefix::Static(t)) => {
            let n = spec_source_text(t).len() as int;
            if spec_is_ident_str(spec_source_text(t)) && pos + n < s.len() && spec_is_ident_ch(
                s[pos + n],
            ) {
                let e = scan(s, pos + 1, is_ident_cont());
                (TokModel::Ident(s.subrange(pos, e)), e)
            } else {
                (TokModel::Static(t), pos + n)
            }
        },
        Some(Prefix::Linebreak) => (TokModel::Linebreak, pos + 1),
        Some(Prefix::Space) => {
            let e = scan(s, pos, is_byte(ascii::SPACE));
            if e - pos == 1 {
                (TokModel::Static(StaticTok::Space), e)
            } else {
                (TokModel::Align((e - pos) as u32), e)
            }
        },
        Some(Prefix::DoubleForwardSlash) => {
            let e = scan(s, pos + 2, is_not(ascii::LINEBREAK));
            (TokModel::LineComment(s.subrange(pos + 2, e)), e)
        },
        Some(Prefix::IdentPrefixCh) => {
            let e = scan(s, pos + 1, is_ident_cont());
            (TokModel::Ident(s.subrange(pos, e)), e)
        },
        None => (TokModel::Unexpected(s[pos]), pos + 1),
    }
}

/// The tokens of `s` from `pos` on.
pub open spec fn lex_from(s: Seq<u8>, pos: int) -> Seq<TokModel>
    decreases s.len() - pos,
{
    if pos < 0 || pos >= s.len() {
        Seq::empty()
    } else {
        let (t, next) = lex_step(s, pos);
        if next <= pos || next > s.len() {
            seq![t]
        } else {
            seq![t] + lex_from(s, next)
        }
    }
}

/// The tokens of `s`.
pub open spec fn lex_spec(s: Seq<u8>) -> Seq<TokModel> {
    lex_from(s, 0)
}

/// The byte offset where each token of `s` from `pos` on begins.
pub open spec fn lex_offsets(s: Seq<u8>, pos: int) -> Seq<int>
    decreases s.len() - pos,
{
    if pos < 0 || pos >= s.len() {
        Seq::empty()
    } else {
        let (t, next) = lex_step(s, pos);
        if next <= pos || next > s.len() {
            seq![pos]
        } else {
            seq![pos] + lex_offsets(s, next)
        }
    }
}

proof fn lemma_static_upto_text(s: Seq<u8>, i: int)
    requires
        0 <= i <= STATIC_TOK_COUNT,
    ensures
        static_upto(s, i) matches Some(t) ==> s == spec_source_text(t),
    decreases i,
{
    if i > 0 {
        lemma_static_upto_text(s, i - 1);
    }
}

/// A category found in the dictionary belongs to a prefix of `s` of that shape.
proof fn lemma_dict_longest_shape(s: Seq<u8>, n: int)
    requires
        n <= s.len(),
    ensures
        dict_longest(s, n) matches Some(v) ==> exists|k: int|
            0 <= k <= n && prefix_dict(#[trigger] s.take(k)) == Some(v),
    decreases n,
{
    if n >= 0 && prefix_dict(s.take(n)) is None && n > 0 {
        lemma_dict_longest_shape(s, n - 1);
    }
}

/// What the category says of the first bytes of `s`.
pub proof fn lemma_classify_shape(s: Seq<u8>)
    requires
        s.len() > 0,
    ensures
        classify(s) == Some(Prefix::DoubleQuote) ==> s[0] == ascii::DOUBLE_QUOTE,
        classify(s) == Some(Prefix::Digit) ==> spec_is_numeric(s[0]),
        classify(s) == Some(Prefix::Linebreak) ==> s[0] == ascii::LINEBREAK,
        classify(s) == Some(Prefix::Space) ==> s[0] == ascii::SPACE,
        classify(s) == Some(Prefix::DoubleForwardSlash) ==> s.len() >= 2 && s[0]
            == ascii::FORWARDSLASH && s[1] == ascii::FORWARDSLASH,
        classify(s) == Some(Prefix::IdentPrefixCh) ==> spec_is_ident_prefix_ch(s[0]),
        classify(s) matches Some(Prefix::Static(t)) ==> spec_source_text(t).len() <= s.len()
            && s.take(spec_source_text(t).len() as int) == spec_source_text(t),
{
    lemma_dict_longest_shape(s, s.len() as int);
    if let Some(v) = classify(s) {
        let k = choose|k: int| 0 <= k <= s.len() && prefix_dict(#[trigger] s.take(k)) == Some(v);
        let p = s.take(k);
        lemma_static_upto_text(p, STATIC_TOK_COUNT as int);
        if p.len() >= 1 {
            assert(p[0] == s[0]);
        }
        if p.len() >= 2 {
            assert(p[1] == s[1]);
        }
        if let Prefix::Static(t) = v {
            assert(p == spec_source_text(t));
            assert(p.len() == k);
        }
    }
}

proof fn lemma_scan_bounds(s: Seq<u8>, i: int, p: spec_fn(u8) -> bool)
    requires
        0 <= i <= s.len(),
    ensures
        i <= scan(s, i, p) <= s.len(),
        forall|j: int| i <= j < scan(s, i, p) ==> p(#[trigger] s[j]),
        scan(s, i, p) < s.len() ==> !p(s[scan(s, i, p)]),
    decreases s.len() - i,
{
    if i < s.len() && p(s[i]) {
        lemma_scan_bounds(s, i + 1, p);
    }
}

proof fn lemma_scan_skip(s: Seq<u8>, i: int, k: int, p: spec_fn(u8) -> bool)
    requires
        0 <= i <= k <= s.len(),
        forall|j: int| i <= j < k ==> p(#[trigger] s[j]),
    ensures
        scan(s, i, p) == scan(s, k, p),
    decreases k - i,
{
    if i < k {
        lemma_scan_skip(s, i + 1, k, p);
    }
}

proof fn lemma_source_text_nonempty(t: StaticTok)
    ensures
        spec_source_text(t).len() >= 1,
{
}

/// Each step of the lexer consumes at least one byte and stays inside the input, so lexing
/// `s` takes at most `|s|` steps, one token each.
pub proof fn lemma_lex_step_progress(s: Seq<u8>, pos: int)
    requires
        0 <= pos < s.len(),
    ensures
        pos < lex_step(s, pos).1 <= s.len(),
{
    let rem = s.subrange(pos, s.len() as int);
    lemma_classify_shape(rem);
    assert(rem[0] == s[pos]);
    match classify(rem) {
        Some(Prefix::DoubleQuote) => {
            lemma_scan_bounds(s, pos + 1, is_not(ascii::DOUBLE_QUOTE));
        },
        Some(Prefix::Digit) => {
            lemma_scan_bounds(s, pos, is_digit());
        },
        Some(Prefix::Static(t)) => {
            lemma_source_text_nonempty(t);
            lemma_scan_bounds(s, pos + 1, is_ident_cont());
        },
        Some(Prefix::Space) => {
            lemma_scan_bounds(s, pos, is_byte(ascii::SPACE));
        },
        Some(Prefix::DoubleForwardSlash) => {
            lemma_scan_bounds(s, pos + 2, is_not(ascii::LINEBREAK));
        },
        Some(Prefix::IdentPrefixCh) => {
            lemma_scan_bounds(s, pos + 1, is_ident_cont());
        },
        _ => {},
    }
}

/// The lexer yields at most one token per input byte.
pub proof fn lemma_lex_len(s: Seq<u8>, pos: int)
    requires
        0 <= pos <= s.len(),
    ensures
        lex_from(s, pos).len() <= s.len() - pos,
    decreases s.len() - pos,
{
    if pos < s.len() {
        lemma_lex_step_progress(s, pos);
        lemma_lex_len(s, lex_step(s, pos).1);
    }
}

/// A prefix tree that stores exactly the dictionary finds the dictionary's longest match.
proof fn lemma_tree_longest(tree: &PrefixTree<Prefix>, s: Seq<u8>, n: int)
    requires
        forall|t: Seq<u8>| #[trigger] tree.lookup(t) == prefix_dict(t),
    ensures
        tree.longest(s, n) == dict_longest(s, n),
    decreases n,
{
    if n >= 0 && n <= s.len() {
        assert(tree.lookup(s.take(n)) == prefix_dict(s.take(n)));
        if n > 0 {
            lemma_tree_longest(tree, s, n - 1);
        }
    }
}

proof fn lemma_no_newlines(x: Seq<u8>)
    requires
        forall|i: int| 0 <= i < x.len() ==> #[trigger] x[i] != ascii::LINEBREAK,
    ensures
        newline_count(x) == 0,
    decreases x.len(),
{
    if x.len() > 0 {
        lemma_no_newlines(x.drop_last());
    }
}

proof fn lemma_newline_count_append(a: Seq<u8>, b: Seq<u8>)
    ensures
        newline_count(a + b) == newline_count(a) + newline_count(b),
    decreases b.len(),
{
    if b.len() > 0 {
        assert((a + b).drop_last() =~= a + b.drop_last());
        lemma_newline_count_append(a, b.drop_last());
    } else {
        assert(a + b =~= a);
    }
}

proof fn lemma_text_has_no_newline(t: StaticTok)
    ensures
        forall|i: int| 0 <= i < spec_source_text(t).len() ==> #[trigger] spec_source_text(t)[i]
            != ascii::LINEBREAK,
{
}

/// With no dictionary prefix, the first byte is no linebreak.
proof fn lemma_unclassified_not_linebreak(s: Seq<u8>)
    requires
        s.len() > 0,
        classify(s) is None,
    ensures
        s[0] != ascii::LINEBREAK,
{
    lemma_dict_longest_none(s, s.len() as int);
    if s[0] == ascii::LINEBREAK {
        assert(s.take(1) =~= seq![ascii::LINEBREAK]);
    }
}

proof fn lemma_dict_longest_none(s: Seq<u8>, n: int)
    requires
        0 <= n <= s.len(),
        dict_longest(s, n) is None,
    ensures
        forall|k: int| 0 <= k <= n ==> prefix_dict(#[trigger] s.take(k)) is None,
    decreases n,
{
    if n > 0 {
        lemma_dict_longest_none(s, n - 1);
    }
}

/// The linebreaks a token holds are those of the bytes it was read from.
#[verifier::rlimit(30)]
proof fn lemma_step_newlines(s: Seq<u8>, pos: int)
    requires
        0 <= pos < s.len(),
    ensures
        tok_newlines(lex_step(s, pos).0) == newline_count(s.subrange(pos, lex_step(s, pos).1)),
{
    let rem = s.subrange(pos, s.len() as int);
    lemma_lex_step_progress(s, pos);
    lemma_classify_shape(rem);
    assert(rem[0] == s[pos]);
    let next = lex_step(s, pos).1;
    let span = s.subrange(pos, next);
    match classify(rem) {
        Some(Prefix::DoubleQuote) => {},
        Some(Prefix::Digit) => {
            lemma_scan_bounds(s, pos, is_digit());
            assert forall|i: int| 0 <= i < span.len() implies #[trigger] span[i] != ascii::LINEBREAK by {
                assert(is_digit()(s[pos + i]));
            }
            lemma_no_newlines(span);
        },
        Some(Prefix::Static(t)) => {
            let n = spec_source_text(t).len() as int;
            if spec_is_ident_str(spec_source_text(t)) && pos + n < s.len() && spec_is_ident_ch(
                s[pos + n],
            ) {
                lemma_scan_bounds(s, pos + 1, is_ident_cont());
                assert(rem.take(n)[0] == s[pos]);
                assert forall|i: int| 0 <= i < span.len() implies #[trigger] span[i] != ascii::LINEBREAK by {
                    if i > 0 {
                        assert(is_ident_cont()(s[pos + i]));
                    }
                }
            } else {
                lemma_text_has_no_newline(t);
                assert forall|i: int| 0 <= i < span.len() implies #[trigger] span[i] != ascii::LINEBREAK by {
                    assert(rem.take(n)[i] == span[i]);
                }
            }
            lemma_no_newlines(span);
        },
        Some(Prefix::Linebreak) => {
            assert(span =~= seq![ascii::LINEBREAK]);
            assert(span.drop_last() =~= Seq::<u8>::empty());
            assert(newline_count(Seq::<u8>::empty()) == 0);
            assert(newline_count(span) == 1);
        },
        Some(Prefix::Space) => {
            lemma_scan_bounds(s, pos, is_byte(ascii::SPACE));
            assert forall|i: int| 0 <= i < span.len() implies #[trigger] span[i] != ascii::LINEBREAK by {
                assert(is_byte(ascii::SPACE)(s[pos + i]));
            }
            lemma_no_newlines(span);
        },
        Some(Prefix::DoubleForwardSlash) => {
            lemma_scan_bounds(s, pos + 2, is_not(ascii::LINEBREAK));
            assert(rem[1] == s[pos + 1]);
            assert forall|i: int| 0 <= i < span.len() implies #[trigger] span[i] != ascii::LINEBREAK by {
                if i >= 2 {
                    assert(is_not(ascii::LINEBREAK)(s[pos + i]));
                }
            }
            lemma_no_newlines(span);
        },
        Some(Prefix::IdentPrefixCh) => {
            lemma_scan_bounds(s, pos + 1, is_ident_cont());
            assert forall|i: int| 0 <= i < span.len() implies #[trigger] span[i] != ascii::LINEBREAK by {
                if i > 0 {
                    assert(is_ident_cont()(s[pos + i]));
                }
            }
            lemma_no_newlines(span);
        },
        None => {
            lemma_unclassified_not_linebreak(rem);
            assert(span =~= seq![s[pos]]);
            assert(span.drop_last() =~= Seq::<u8>::empty());
            assert(newline_count(Seq::<u8>::empty()) == 0);
            assert(newline_count(span) == 0);
        },
    }
}

/// Builds the prefix tree of the dictionary.
#[verifier::rlimit(30)]
fn build_prefix_tree() -> (r: PrefixTree<Prefix>)
    ensures
        forall|t: Seq<u8>| #[trigger] r.lookup(t) == prefix_dict(t),
{
    let mut tree: PrefixTree<Prefix> = PrefixTree::new();
    let quote: [u8; 1] = [ascii::DOUBLE_QUOTE];
    tree.insert_seq(quote.as_slice(), Prefix::DoubleQuote);
    assert(quote@ =~= seq![ascii::DOUBLE_QUOTE]);
    let mut digit: u8 = 48;
    while digit < 58
        invariant
            48 <= digit <= 58,
            forall|t: Seq<u8>| #[trigger]
                tree.lookup(t) == if t.len() == 1 && 48 <= t[0] < digit {
                    Some(Prefix::Digit)
                } else if t == seq![ascii::DOUBLE_QUOTE] {
                    Some(Prefix::DoubleQuote)
                } else {
                    None
                },
        decreases 58 - digit,
    {
        let d: [u8; 1] = [digit];
        tree.insert_seq(d.as_slice(), Prefix::Digit);
        proof {
            assert(d@ =~= seq![digit]);
            assert forall|t: Seq<u8>| #[trigger]
                tree.lookup(t) == if t.len() == 1 && 48 <= t[0] < digit + 1 {
                    Some(Prefix::Digit)
                } else if t == seq![ascii::DOUBLE_QUOTE] {
                    Some(Prefix::DoubleQuote)
                } else {
                    None
                } by {
                if t.len() == 1 && t[0] == digit {
                    assert(t =~= seq![digit]);
                }
            }
        }
        digit = digit + 1;
    }
    let variants = StaticTok::variants();
    let mut i: usize = 0;
    while i < STATIC_TOK_COUNT
        invariant
            i <= STATIC_TOK_COUNT,
            variants@ == all_static_toks(),
            forall|t: Seq<u8>| #[trigger]
                tree.lookup(t) == if static_upto(t, i as int) is Some {
                    Some(Prefix::Static(static_upto(t, i as int).unwrap()))
                } else if t.len() == 1 && spec_is_numeric(t[0]) {
                    Some(Prefix::Digit)
                } else if t == seq![ascii::DOUBLE_QUOTE] {
                    Some(Prefix::DoubleQuote)
                } else {
                    None
                },
        decreases STATIC_TOK_COUNT - i,
    {
        let stok = variants[i];
        tree.insert_seq(stok.source_text(), Prefix::Static(stok));
        i = i + 1;
    }
    let lb: [u8; 1] = [ascii::LINEBREAK];
    tree.insert_seq(lb.as_slice(), Prefix::Linebreak);
    let sp: [u8; 1] = [ascii::SPACE];
    tree.insert_seq(sp.as_slice(), Prefix::Space);
    let slashes: [u8; 2] = [ascii::FORWARDSLASH, ascii::FORWARDSLASH];
    tree.insert_seq(slashes.as_slice(), Prefix::DoubleForwardSlash);
    proof {
        assert(lb@ =~= seq![ascii::LINEBREAK]);
        assert(sp@ =~= seq![ascii::SPACE]);
        assert(slashes@ =~= seq![ascii::FORWARDSLASH, ascii::FORWARDSLASH]);
    }
    let ident_prefix_chs = iter_ident_prefix_chs();
    let ghost before = tree;
    let mut j: usize = 0;
    while j < ident_prefix_chs.len()
        invariant
            j <= ident_prefix_chs@.len(),
            forall|t: Seq<u8>| #[trigger]
                tree.lookup(t) == if t.len() == 1 && ident_prefix_chs@.subrange(0, j as int).contains(
                    t[0],
                ) {
                    Some(Prefix::IdentPrefixCh)
                } else {
                    before.lookup(t)
                },
        decreases ident_prefix_chs@.len() - j,
    {
        let ch: [u8; 1] = [ident_prefix_chs[j]];
        tree.insert_seq(ch.as_slice(), Prefix::IdentPrefixCh);
        proof {
            assert(ch@ =~= seq![ident_prefix_chs@[j as int]]);
            assert forall|t: Seq<u8>| #[trigger]
                tree.lookup(t) == if t.len() == 1 && ident_prefix_chs@.subrange(
                    0,
                    j + 1,
                ).contains(t[0]) {
                    Some(Prefix::IdentPrefixCh)
                } else {
                    before.lookup(t)
                } by {
                let prev = ident_prefix_chs@.subrange(0, j as int);
                let next = ident_prefix_chs@.subrange(0, j + 1);
                assert(next =~= prev.push(ident_prefix_chs@[j as int]));
                if t.len() == 1 && t[0] == ident_prefix_chs@[j as int] {
                    assert(t =~= ch@);
                    assert(next[j as int] == t[0]);
                }
                if t.len() == 1 && prev.contains(t[0]) {
                    let w = choose|w: int| 0 <= w < prev.len() && prev[w] == t[0];
                    assert(next[w] == t[0]);
                }
                if t.len() == 1 && next.contains(t[0]) && t[0] != ident_prefix_chs@[j as int] {
                    let w = choose|w: int| 0 <= w < next.len() && next[w] == t[0];
                    assert(prev[w] == t[0]);
                }
            }
        }
        j = j + 1;
    }
    proof {
        assert(ident_prefix_chs@.subrange(0, ident_prefix_chs@.len() as int) =~= ident_prefix_chs@);
        assert forall|t: Seq<u8>| #[trigger] tree.lookup(t) == prefix_dict(t) by {
        }
    }
    tree
}

/// A class of bytes that the lexer consumes in runs.
#[derive(Clone, Copy)]
enum Run {
    Not(u8),
    Byte(u8),
    Digits,
    IdentChs,
}

spec fn run_pred(run: Run) -> spec_fn(u8) -> bool {
    match run {
        Run::Not(b) => is_not(b),
        Run::Byte(b) => is_byte(b),
        Run::Digits => is_digit(),
        Run::IdentChs => is_ident_cont(),
    }
}

impl Run {
    fn contains(self, ch: u8) -> (r: bool)
        ensures
            r == run_pred(self)(ch),
    {
        match self {
            Run::Not(b) => ch != b,
            Run::Byte(b) => ch == b,
            Run::Digits => ascii::is_numeric_ch(ch),
            Run::IdentChs => is_ident_ch(ch),
        }
    }
}

/// The source bytes and the lexer's position in them.
struct ByteStream<'a> {
    bytes: &'a [u8],
    pos: usize,
}

impl<'a> ByteStream<'a> {
    fn new(bytes: &'a [u8]) -> (r: Self)
        ensures
            r.bytes == bytes,
            r.pos == 0,
    {
        ByteStream { bytes, pos: 0 }
    }

    /// The bytes not consumed yet.
    fn rem(&self) -> (r: &'a [u8])
        requires
            self.pos <= self.bytes@.len(),
        ensures
            r@ == self.bytes@.subrange(self.pos as int, self.bytes@.len() as int),
    {
        slice_subrange(self.bytes, self.pos, self.bytes.len())
    }

    fn advance_n(&mut self, n: usize)
        requires
            old(self).pos + n <= old(self).bytes@.len(),
        ensures
            final(self).bytes == old(self).bytes,
            final(self).pos == old(self).pos + n,
    {
        assert(self.pos + n <= self.bytes.len());
        self.pos = self.pos + n;
    }

    /// Consumes the bytes of the run, up to the first that does not belong to it.
    fn advance_while(&mut self, run: Run) -> (r: &'a [u8])
        requires
            old(self).pos <= old(self).bytes@.len(),
        ensures
            final(self).bytes == old(self).bytes,
            final(self).pos == scan(old(self).bytes@, old(self).pos as int, run_pred(run)),
            r@ == old(self).bytes@.subrange(old(self).pos as int, final(self).pos as int),
    {
        let begin = self.pos;
        proof {
            lemma_scan_bounds(self.bytes@, begin as int, run_pred(run));
        }
        while self.pos < self.bytes.len() && run.contains(self.bytes[self.pos])
            invariant
                begin <= self.pos <= self.bytes@.len(),
                self.bytes == old(self).bytes,
                scan(self.bytes@, begin as int, run_pred(run)) == scan(
                    self.bytes@,
                    self.pos as int,
                    run_pred(run),
                ),
            decreases self.bytes@.len() - self.pos,
        {
            self.pos = self.pos + 1;
        }
        slice_subrange(self.bytes, begin, self.pos)
    }

    /// Consumes the next byte if it belongs to the run.
    fn advance_if(&mut self, run: Run)
        requires
            old(self).pos <= old(self).bytes@.len(),
        ensures
            final(self).bytes == old(self).bytes,
            final(self).pos == if old(self).pos < old(self).bytes@.len() && run_pred(run)(
                old(self).bytes@[old(self).pos as int],
            ) {
                old(self).pos + 1
            } else {
                old(self).pos as int
            },
    {
        if self.pos < self.bytes.len() && run.contains(self.bytes[self.pos]) {
            self.pos = self.pos + 1;
        }
    }

    /// Consumes and returns the next byte.
    fn advance(&mut self) -> (r: u8)
        requires
            old(self).pos < old(self).bytes@.len(),
        ensures
            final(self).bytes == old(self).bytes,
            final(self).pos == old(self).pos + 1,
            r == old(self).bytes@[old(self).pos as int],
    {
        let next = self.bytes[self.pos];
        self.advance_n(1);
        next
    }
}

/// What holds between steps of the lexer: the buffer is well formed and has room for the tokens
/// of the rest of the input, `base` being the interner's size when lexing began.
spec fn lex_inv(tokbuf: TokBuf, interner: StrInterner, s: Seq<u8>, pos: int, base: nat) -> bool {
    &&& tokbuf.wf(interner.strs())
    &&& interner.wf()
    &&& 0 <= pos <= s.len()
    &&& s.len() < ADDR_MAX
    &&& 9 * s.len() + base + 2 * HEADER_LEN < ETC_MAX
    &&& tokbuf.spec_len() <= pos
    &&& tokbuf.str_table_len() <= 9 * pos
    &&& interner.byte_len() <= base + 9 * pos
}

/// One step of the lexer from `pos`: the token of [`lex_step`] was pushed and the stream moved
/// past it.
spec fn step_post(
    t0: TokBuf,
    t1: TokBuf,
    i0: StrInterner,
    i1: StrInterner,
    s: Seq<u8>,
    pos: int,
    next: int,
    base: nat,
) -> bool {
    &&& lex_inv(t1, i1, s, next, base)
    &&& t1.toks() == t0.toks().push(lex_step(s, pos).0)
    &&& next == lex_step(s, pos).1
    &&& i0.strs().submap_of(i1.strs())
    &&& t1.marks() == t0.marks().push(t0.lines().len() as int)
    &&& (t1.positions(), t1.spec_len(), t1.open_slots()) == layout_step(
        (t0.positions(), t0.spec_len(), t0.open_slots()),
        lex_step(s, pos).0,
    )
    &&& t1.lines().len() == t0.lines().len() + tok_newlines(lex_step(s, pos).0)
}

/// A token's payload fits in the bytes it was read from, headers included.
spec fn payload_fits(t: TokModel, pos: int, next: int) -> bool {
    HEADER_LEN + crate::tok::tokbuf::payload_len(t) <= 9 * (next - pos)
}

/// Pushes `tok`, the token of [`lex_step`] at `pos` that ends at `next`.
fn push_step(
    tokbuf: &mut TokBuf,
    interner: &mut StrInterner,
    tok: Tok,
    Ghost(s): Ghost<Seq<u8>>,
    Ghost(pos): Ghost<int>,
    Ghost(next): Ghost<int>,
    Ghost(base): Ghost<nat>,
)
    requires
        lex_inv(*old(tokbuf), *old(interner), s, pos, base),
        pos < next <= s.len(),
        tok.valid(),
        tok@ == lex_step(s, pos).0,
        next == lex_step(s, pos).1,
        payload_fits(tok@, pos, next),
        tok@ matches TokModel::Align(n) ==> n <= next - pos,
    ensures
        step_post(*old(tokbuf), *final(tokbuf), *old(interner), *final(interner), s, pos, next, base),
{
    tokbuf.push(tok, interner);
}

/// Preconditions shared by the rules: the invariant holds and bytes remain, of the category
/// the rule handles.
spec fn rule_pre(
    tokbuf: TokBuf,
    interner: StrInterner,
    stream: ByteStream,
    base: nat,
    c: Option<Prefix>,
) -> bool {
    &&& lex_inv(tokbuf, interner, stream.bytes@, stream.pos as int, base)
    &&& stream.pos < stream.bytes@.len()
    &&& classify(stream.bytes@.subrange(stream.pos as int, stream.bytes@.len() as int)) == c
}

fn lex_double_quote(
    tokbuf: &mut TokBuf,
    interner: &mut StrInterner,
    stream: &mut ByteStream,
    Ghost(base): Ghost<nat>,
)
    requires
        rule_pre(*old(tokbuf), *old(interner), *old(stream), base, Some(Prefix::DoubleQuote)),
    ensures
        final(stream).bytes == old(stream).bytes,
        step_post(*old(tokbuf), *final(tokbuf), *old(interner), *final(interner), old(stream).bytes@, old(stream).pos as int, final(stream).pos as int, base),
{
    let ghost s = stream.bytes@;
    let ghost pos = stream.pos as int;
    proof {
        lemma_lex_step_progress(s, pos);
        lemma_scan_bounds(s, pos + 1, is_not(ascii::DOUBLE_QUOTE));
    }
    let begin = stream.pos;
    stream.advance_n(1);
    stream.advance_while(Run::Not(ascii::DOUBLE_QUOTE));
    stream.advance_if(Run::Byte(ascii::DOUBLE_QUOTE));
    let end = stream.pos;
    let source_text = slice_subrange(stream.bytes, begin, end);
    proof {
        assert(source_text@[0] == s[pos]);
        lemma_classify_shape(s.subrange(pos, s.len() as int));
        assert(s.subrange(pos, s.len() as int)[0] == s[pos]);
    }
    let tok = Tok::StrLiteral(StrLiteral::new(source_text));
    push_step(tokbuf, interner, tok, Ghost(s), Ghost(pos), Ghost(end as int), Ghost(base));
}

fn lex_digit(
    tokbuf: &mut TokBuf,
    interner: &mut StrInterner,
    stream: &mut ByteStream,
    Ghost(base): Ghost<nat>,
)
    requires
        rule_pre(*old(tokbuf), *old(interner), *old(stream), base, Some(Prefix::Digit)),
    ensures
        final(stream).bytes == old(stream).bytes,
        step_post(*old(tokbuf), *final(tokbuf), *old(interner), *final(interner), old(stream).bytes@, old(stream).pos as int, final(stream).pos as int, base),
{
    let ghost s = stream.bytes@;
    let ghost pos = stream.pos as int;
    proof {
        lemma_lex_step_progress(s, pos);
    }
    let digits = stream.advance_while(Run::Digits);
    proof {
        lemma_scan_bounds(s, pos, is_digit());
        lemma_classify_shape(s.subrange(pos, s.len() as int));
        assert(s.subrange(pos, s.len() as int)[0] == s[pos]);
        assert forall|i: int| 0 <= i < digits@.len() implies spec_is_numeric(#[trigger] digits@[i]) by {
            assert(digits@[i] == s[pos + i]);
            assert(is_digit()(s[pos + i]));
        }
    }
    let tok = Tok::DecIntLiteral(DecIntLiteral::new(digits));
    push_step(tokbuf, interner, tok, Ghost(s), Ghost(pos), Ghost(stream.pos as int), Ghost(base));
}

#[verifier::rlimit(30)]
fn lex_stok(
    tokbuf: &mut TokBuf,
    interner: &mut StrInterner,
    stream: &mut ByteStream,
    stok: StaticTok,
    Ghost(base): Ghost<nat>,
)
    requires
        rule_pre(*old(tokbuf), *old(interner), *old(stream), base, Some(Prefix::Static(stok))),
    ensures
        final(stream).bytes == old(stream).bytes,
        step_post(*old(tokbuf), *final(tokbuf), *old(interner), *final(interner), old(stream).bytes@, old(stream).pos as int, final(stream).pos as int, base),
{
    let ghost s = stream.bytes@;
    let ghost pos = stream.pos as int;
    let ghost rem = s.subrange(pos, s.len() as int);
    proof {
        lemma_lex_step_progress(s, pos);
        lemma_classify_shape(rem);
    }
    let text = stok.source_text();
    let n = text.len();
    // A keyword followed by an identifier byte begins an identifier instead.
    if is_ident_str(text) {
        if stream.pos + n < stream.bytes.len() {
            let next = stream.bytes[stream.pos + n];
            if is_ident_ch(next) {
                proof {
                    assert forall|j: int| pos + 1 <= j < pos + 1 + n implies is_ident_cont()(#[trigger] s[j]) by {
                        if j < pos + n {
                            assert(rem.take(n as int)[j - pos] == s[j]);
                        }
                    }
                    lemma_scan_skip(s, pos + 1, pos + 1 + n, is_ident_cont());
                    assert(spec_is_ident_prefix_ch(s[pos])) by {
                        assert(rem.take(n as int)[0] == s[pos]);
                    }
                }
                lex_ident_prefix_ch(tokbuf, interner, stream, n, Ghost(base));
                return;
            }
        }
    }
    stream.advance_n(n);
    push_step(tokbuf, interner, Tok::Static(stok), Ghost(s), Ghost(pos), Ghost(stream.pos as int), Ghost(base));
}

fn lex_linebreak(
    tokbuf: &mut TokBuf,
    interner: &mut StrInterner,
    stream: &mut ByteStream,
    Ghost(base): Ghost<nat>,
)
    requires
        rule_pre(*old(tokbuf), *old(interner), *old(stream), base, Some(Prefix::Linebreak)),
    ensures
        final(stream).bytes == old(stream).bytes,
        step_post(*old(tokbuf), *final(tokbuf), *old(interner), *final(interner), old(stream).bytes@, old(stream).pos as int, final(stream).pos as int, base),
{
    let ghost s = stream.bytes@;
    let ghost pos = stream.pos as int;
    proof {
        lemma_lex_step_progress(s, pos);
    }
    stream.advance();
    push_step(tokbuf, interner, Tok::Linebreak, Ghost(s), Ghost(pos), Ghost(stream.pos as int), Ghost(base));
}

fn lex_space(
    tokbuf: &mut TokBuf,
    interner: &mut StrInterner,
    stream: &mut ByteStream,
    Ghost(base): Ghost<nat>,
)
    requires
        rule_pre(*old(tokbuf), *old(interner), *old(stream), base, Some(Prefix::Space)),
    ensures
        final(stream).bytes == old(stream).bytes,
        step_post(*old(tokbuf), *final(tokbuf), *old(interner), *final(interner), old(stream).bytes@, old(stream).pos as int, final(stream).pos as int, base),
{
    let ghost s = stream.bytes@;
    let ghost pos = stream.pos as int;
    proof {
        lemma_lex_step_progress(s, pos);
    }
    let spaces = stream.advance_while(Run::Byte(ascii::SPACE));
    let count = spaces.len() as u32;
    if count > 1 {
        push_step(tokbuf, interner, Tok::Align(Align { count }), Ghost(s), Ghost(pos), Ghost(stream.pos as int), Ghost(base));
    } else {
        push_step(tokbuf, interner, Tok::Static(StaticTok::Space), Ghost(s), Ghost(pos), Ghost(stream.pos as int), Ghost(base));
    }
}

fn lex_double_forward_slash(
    tokbuf: &mut TokBuf,
    interner: &mut StrInterner,
    stream: &mut ByteStream,
    Ghost(base): Ghost<nat>,
)
    requires
        rule_pre(*old(tokbuf), *old(interner), *old(stream), base, Some(Prefix::DoubleForwardSlash)),
    ensures
        final(stream).bytes == old(stream).bytes,
        step_post(*old(tokbuf), *final(tokbuf), *old(interner), *final(interner), old(stream).bytes@, old(stream).pos as int, final(stream).pos as int, base),
{
    let ghost s = stream.bytes@;
    let ghost pos = stream.pos as int;
    proof {
        lemma_lex_step_progress(s, pos);
        lemma_classify_shape(s.subrange(pos, s.len() as int));
    }
    stream.advance_n(2);
    let content = stream.advance_while(Run::Not(ascii::LINEBREAK));
    proof {
        lemma_scan_bounds(s, pos + 2, is_not(ascii::LINEBREAK));
    }
    proof {
        assert forall|i: int| 0 <= i < content@.len() implies #[trigger] content@[i] != ascii::LINEBREAK by {
            assert(content@[i] == s[pos + 2 + i]);
            assert(is_not(ascii::LINEBREAK)(s[pos + 2 + i]));
        }
    }
    let tok = Tok::LineComment(LineComment::new(content));
    push_step(tokbuf, interner, tok, Ghost(s), Ghost(pos), Ghost(stream.pos as int), Ghost(base));
}

/// Lexes an identifier whose first `1 + assume_n` bytes are already known to be identifier
/// bytes.
fn lex_ident_prefix_ch(
    tokbuf: &mut TokBuf,
    interner: &mut StrInterner,
    stream: &mut ByteStream,
    assume_n: usize,
    Ghost(base): Ghost<nat>,
)
    requires
        lex_inv(*old(tokbuf), *old(interner), old(stream).bytes@, old(stream).pos as int, base),
        old(stream).pos + 1 + assume_n <= old(stream).bytes@.len(),
        spec_is_ident_prefix_ch(old(stream).bytes@[old(stream).pos as int]),
        scan(old(stream).bytes@, old(stream).pos + 1, is_ident_cont()) == scan(
            old(stream).bytes@,
            old(stream).pos + 1 + assume_n,
            is_ident_cont(),
        ),
        lex_step(old(stream).bytes@, old(stream).pos as int) == ({
            let e = scan(old(stream).bytes@, old(stream).pos + 1, is_ident_cont());
            (TokModel::Ident(old(stream).bytes@.subrange(old(stream).pos as int, e)), e)
        }),
    ensures
        final(stream).bytes == old(stream).bytes,
        step_post(*old(tokbuf), *final(tokbuf), *old(interner), *final(interner), old(stream).bytes@, old(stream).pos as int, final(stream).pos as int, base),
{
    let ghost s = stream.bytes@;
    let ghost pos = stream.pos as int;
    proof {
        lemma_lex_step_progress(s, pos);
    }
    let begin = stream.pos;
    stream.advance();
    stream.advance_n(assume_n);
    stream.advance_while(Run::IdentChs);
    let source_text = slice_subrange(stream.bytes, begin, stream.pos);
    push_step(tokbuf, interner, Tok::Ident(Ident::new(source_text)), Ghost(s), Ghost(pos), Ghost(stream.pos as int), Ghost(base));
}

fn lex_other(
    tokbuf: &mut TokBuf,
    interner: &mut StrInterner,
    stream: &mut ByteStream,
    Ghost(base): Ghost<nat>,
)
    requires
        rule_pre(*old(tokbuf), *old(interner), *old(stream), base, None),
    ensures
        final(stream).bytes == old(stream).bytes,
        step_post(*old(tokbuf), *final(tokbuf), *old(interner), *final(interner), old(stream).bytes@, old(stream).pos as int, final(stream).pos as int, base),
{
    let ghost s = stream.bytes@;
    let ghost pos = stream.pos as int;
    proof {
        lemma_lex_step_progress(s, pos);
    }
    let ch = stream.advance();
    push_step(tokbuf, interner, Tok::Unexpected(Unexpected { ch }), Ghost(s), Ghost(pos), Ghost(stream.pos as int), Ghost(base));
}

/// Lexes the rest of the stream, dispatching on the category of the longest dictionary prefix
/// at each position.
#[verifier::rlimit(30)]
fn lex_loop(
    tokbuf: &mut TokBuf,
    interner: &mut StrInterner,
    stream: &mut ByteStream,
    tree: &PrefixTree<Prefix>,
    Ghost(base): Ghost<nat>,
)
    requires
        lex_inv(*old(tokbuf), *old(interner), old(stream).bytes@, old(stream).pos as int, base),
        forall|t: Seq<u8>| #[trigger] tree.lookup(t) == prefix_dict(t),
        old(stream).pos == 0,
        old(tokbuf).toks().len() == 0,
        old(tokbuf).lines().len() == 0,
        old(tokbuf).marks().len() == 0,
        old(tokbuf).positions().len() == 0,
        old(tokbuf).spec_len() == 0,
        old(tokbuf).open_slots() == 0,
    ensures
        final(stream).bytes == old(stream).bytes,
        final(stream).pos == old(stream).bytes@.len(),
        lex_inv(*final(tokbuf), *final(interner), old(stream).bytes@, final(stream).pos as int, base),
        final(tokbuf).toks() == old(tokbuf).toks() + lex_from(old(stream).bytes@, old(stream).pos as int),
        old(interner).strs().submap_of(final(interner).strs()),
        lex_offsets(old(stream).bytes@, 0).len() == final(tokbuf).toks().len(),
        (final(tokbuf).positions(), final(tokbuf).spec_len(), final(tokbuf).open_slots()) == layout(final(tokbuf).toks()),
        forall|i: int| 0 <= i < final(tokbuf).toks().len() ==> #[trigger] final(tokbuf).marks()[i]
            == newline_count(old(stream).bytes@.take(lex_offsets(old(stream).bytes@, 0)[i])),
{
    let ghost s = stream.bytes@;
    let ghost start = stream.pos as int;
    let ghost toks0 = tokbuf.toks();
    let ghost strs0 = interner.strs();
    let ghost mut offs: Seq<int> = Seq::empty();
    proof {
        assert(s.take(0) =~= Seq::<u8>::empty());
    }
    while stream.pos < stream.bytes.len()
        invariant
            offs + lex_offsets(s, stream.pos as int) == lex_offsets(s, 0),
            offs.len() == tokbuf.toks().len(),
            tokbuf.marks().len() == tokbuf.toks().len(),
            (tokbuf.positions(), tokbuf.spec_len(), tokbuf.open_slots()) == layout(tokbuf.toks()),
            tokbuf.lines().len() == newline_count(s.take(stream.pos as int)),
            forall|i: int| 0 <= i < tokbuf.toks().len() ==> #[trigger] tokbuf.marks()[i] == newline_count(s.take(offs[i])),
            stream.bytes@ == s,
            start <= stream.pos <= s.len(),
            lex_inv(*tokbuf, *interner, s, stream.pos as int, base),
            forall|t: Seq<u8>| #[trigger] tree.lookup(t) == prefix_dict(t),
            tokbuf.toks() + lex_from(s, stream.pos as int) == toks0 + lex_from(s, start),
            strs0.submap_of(interner.strs()),
        decreases s.len() - stream.pos,
    {
        let ghost pos = stream.pos as int;
        let ghost toks = tokbuf.toks();
        let ghost strs = interner.strs();
        let rem = stream.rem();
        let category: Option<Prefix> = match tree.get(rem) {
            Some(c) => Some(*c),
            None => None,
        };
        proof {
            lemma_tree_longest(tree, rem@, rem@.len() as int);
            lemma_lex_step_progress(s, pos);
        }
        match category {
            Some(Prefix::DoubleQuote) => lex_double_quote(tokbuf, interner, stream, Ghost(base)),
            Some(Prefix::Digit) => lex_digit(tokbuf, interner, stream, Ghost(base)),
            Some(Prefix::Static(stok)) => lex_stok(tokbuf, interner, stream, stok, Ghost(base)),
            Some(Prefix::Linebreak) => lex_linebreak(tokbuf, interner, stream, Ghost(base)),
            Some(Prefix::Space) => lex_space(tokbuf, interner, stream, Ghost(base)),
            Some(Prefix::DoubleForwardSlash) => lex_double_forward_slash(
                tokbuf,
                interner,
                stream,
                Ghost(base),
            ),
            Some(Prefix::IdentPrefixCh) => {
                proof {
                    lemma_classify_shape(rem@);
                    assert(rem@[0] == s[pos]);
                    lemma_scan_skip(s, pos + 1, pos + 1, is_ident_cont());
                }
                lex_ident_prefix_ch(tokbuf, interner, stream, 0, Ghost(base))
            },
            None => lex_other(tokbuf, interner, stream, Ghost(base)),
        }
        proof {
            let (t, next) = lex_step(s, pos);
            assert(lex_from(s, pos) == seq![t] + lex_from(s, next));
            assert(tokbuf.toks() + lex_from(s, next) =~= toks + lex_from(s, pos));
            vstd::map_lib::lemma_submap_of_trans(strs0, strs, interner.strs());
            assert(lex_offsets(s, pos) == seq![pos] + lex_offsets(s, next));
            assert(offs.push(pos) + lex_offsets(s, next) =~= offs + lex_offsets(s, pos));
            lemma_step_newlines(s, pos);
            assert(s.take(next) =~= s.take(pos) + s.subrange(pos, next));
            lemma_newline_count_append(s.take(pos), s.subrange(pos, next));
            offs = offs.push(pos);
            assert(tokbuf.toks().drop_last() =~= toks);
        }
    }
    proof {
        assert(lex_from(s, s.len() as int) =~= Seq::<TokModel>::empty());
        assert(tokbuf.toks() + Seq::<TokModel>::empty() =~= tokbuf.toks());
        assert(lex_offsets(s, s.len() as int) =~= Seq::<int>::empty());
        assert(offs + Seq::<int>::empty() =~= offs);
    }
}

/// Lexes `source_text` into a token buffer, interning its identifiers. The lexer never fails:
/// a byte it cannot classify becomes an `Unexpected` token.
#[verifier::rlimit(30)]
pub fn lex(source_text: &[u8], interner: &mut StrInterner) -> (r: TokBuf)
    requires
        old(interner).wf(),
        source_text@.len() < ADDR_MAX,
        9 * source_text@.len() + old(interner).byte_len() + 2 * HEADER_LEN < ETC_MAX,
    ensures
        final(interner).wf(),
        r.wf(final(interner).strs()),
        r.toks() == lex_spec(source_text@),
        r.positions() == layout(lex_spec(source_text@)).0,
        r.spec_len() == layout(lex_spec(source_text@)).1,
        old(interner).strs().submap_of(final(interner).strs()),
        lex_offsets(source_text@, 0).len() == r.toks().len(),
        forall|i: int|
            0 <= i < r.toks().len() ==> lines_split(
                r.lines(),
                newline_count(source_text@.take(#[trigger] lex_offsets(source_text@, 0)[i])) as int,
                r.positions()[i].0,
            ),
{
    let ghost base = interner.byte_len();
    let mut tokbuf = TokBuf::new();
    let mut stream = ByteStream::new(source_text);
    let tree = build_prefix_tree();
    proof {
        assert(tokbuf.wf(interner.strs()));
    }
    lex_loop(&mut tokbuf, interner, &mut stream, &tree, Ghost(base));
    proof {
        assert(tokbuf.toks() =~= lex_from(source_text@, 0));
    }
    tokbuf.shrink_to_fit();
    proof {
        assert forall|i: int| 0 <= i < tokbuf.toks().len() implies lines_split(
            tokbuf.lines(),
            newline_count(source_text@.take(#[trigger] lex_offsets(source_text@, 0)[i])) as int,
            tokbuf.positions()[i].0,
        ) by {
            tokbuf.lemma_marks_split(interner.strs(), i);
        }
    }
    tokbuf
}

} // verus!
