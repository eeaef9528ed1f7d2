use vstd::prelude::*;
use crate::tok::ident::Ident;
use crate::util::str_list::StrRef;
use crate::util::ascii::{self, spec_is_numeric};

verus! {

/// A token of the source text.
#[derive(Clone, Copy)]
pub enum Tok<'a> {
    Static(StaticTok),
    StrLiteral(StrLiteral<'a>),
    DecIntLiteral(DecIntLiteral<'a>),
    Ident(Ident<'a>),
    Linebreak,
    Align(Align),
    LineComment(LineComment<'a>),
    Unexpected(Unexpected),
}

/// What a token is, with the bytes it carries.
pub enum TokModel {
    Static(StaticTok),
    StrLiteral(Seq<u8>),
    DecIntLiteral(Seq<u8>),
    Ident(Seq<u8>),
    Linebreak,
    Align(u32),
    LineComment(Seq<u8>),
    Unexpected(u8),
}

impl<'a> View for Tok<'a> {
    type V = TokModel;

    open spec fn view(&self) -> TokModel {
        match self {
            Tok::Static(s) => TokModel::Static(*s),
            Tok::StrLiteral(l) => TokModel::StrLiteral(l.str_ref@),
            Tok::DecIntLiteral(l) => TokModel::DecIntLiteral(l.str_ref@),
            Tok::Ident(i) => TokModel::Ident(i.source_text@),
            Tok::Linebreak => TokModel::Linebreak,
            Tok::Align(a) => TokModel::Align(a.count),
            Tok::LineComment(c) => TokModel::LineComment(c.str_ref@),
            Tok::Unexpected(u) => TokModel::Unexpected(u.ch),
        }
    }
}

impl<'a> Tok<'a> {
    /// Every byte string the token refers to can be read.
    pub open spec fn valid(&self) -> bool {
        match self {
            Tok::StrLiteral(l) => l.str_ref.valid(),
            Tok::DecIntLiteral(l) => l.str_ref.valid(),
            Tok::Ident(i) => i.source_text.valid(),
            Tok::LineComment(c) => c.str_ref.valid(),
            _ => true,
        }
    }
}

/// A keyword or punctuation token. Each has a small non-zero id.
#[derive(Clone, Copy, PartialEq, Eq, Structural, Debug)]
pub enum StaticTok {
    If,
    For,
    Let,
    Struct,
    Enum,
    Namespace,
    Import,
    Break,
    Continue,
    Proc,
    OpenParen,
    CloseParen,
    OpenCurly,
    CloseCurly,
    OpenSquare,
    CloseSquare,
    LessThan,
    LessThanEq,
    GreaterThan,
    GreaterThanEq,
    EqEq,
    NotEq,
    Eq,
    Colon,
    ColonColon,
    Percent,
    Exclamation,
    Ampersand,
    Semicolon,
    /// A *single* space. A run of two or more spaces is an [`Align`] token.
    Space,
    Comma,
}

/// Number of static tokens.
pub const STATIC_TOK_COUNT: usize = 31;

/// The id of a static token: its position in [`StaticTok::variants`] plus one.
pub open spec fn spec_id(t: StaticTok) -> u8 {
    match t {
        StaticTok::If => 1u8,
        StaticTok::For => 2u8,
        StaticTok::Let => 3u8,
        StaticTok::Struct => 4u8,
        StaticTok::Enum => 5u8,
        StaticTok::Namespace => 6u8,
        StaticTok::Import => 7u8,
        StaticTok::Break => 8u8,
        StaticTok::Continue => 9u8,
        StaticTok::Proc => 10u8,
        StaticTok::OpenParen => 11u8,
        StaticTok::CloseParen => 12u8,
        StaticTok::OpenCurly => 13u8,
        StaticTok::CloseCurly => 14u8,
        StaticTok::OpenSquare => 15u8,
        StaticTok::CloseSquare => 16u8,
        StaticTok::LessThan => 17u8,
        StaticTok::LessThanEq => 18u8,
        StaticTok::GreaterThan => 19u8,
        StaticTok::GreaterThanEq => 20u8,
        StaticTok::EqEq => 21u8,
        StaticTok::NotEq => 22u8,
        StaticTok::Eq => 23u8,
        StaticTok::Colon => 24u8,
        StaticTok::ColonColon => 25u8,
        StaticTok::Percent => 26u8,
        StaticTok::Exclamation => 27u8,
        StaticTok::Ampersand => 28u8,
        StaticTok::Semicolon => 29u8,
        StaticTok::Space => 30u8,
        StaticTok::Comma => 31u8,
    }
}

/// The source text of a static token.
pub open spec fn spec_source_text(t: StaticTok) -> Seq<u8> {
    match t {
        StaticTok::If => seq![105u8, 102u8],
        StaticTok::For => seq![102u8, 111u8, 114u8],
        StaticTok::Let => seq![108u8, 101u8, 116u8],
        StaticTok::Struct => seq![115u8, 116u8, 114u8, 117u8, 99u8, 116u8],
        StaticTok::Enum => seq![101u8, 110u8, 117u8, 109u8],
        StaticTok::Namespace => seq![110u8, 97u8, 109u8, 101u8, 115u8, 112u8, 97u8, 99u8, 101u8],
        StaticTok::Import => seq![105u8, 109u8, 112u8, 111u8, 114u8, 116u8],
        StaticTok::Break => seq![98u8, 114u8, 101u8, 97u8, 107u8],
        StaticTok::Continue => seq![99u8, 111u8, 110u8, 116u8, 105u8, 110u8, 117u8, 101u8],
        StaticTok::Proc => seq![112u8, 114u8, 111u8, 99u8],
        StaticTok::OpenParen => seq![40u8],
        StaticTok::CloseParen => seq![41u8],
        StaticTok::OpenCurly => seq![123u8],
        StaticTok::CloseCurly => seq![125u8],
        StaticTok::OpenSquare => seq![91u8],
        StaticTok::CloseSquare => seq![93u8],
        StaticTok::LessThan => seq![60u8],
        StaticTok::LessThanEq => seq![60u8, 61u8],
        StaticTok::GreaterThan => seq![62u8],
        StaticTok::GreaterThanEq => seq![62u8, 61u8],
        StaticTok::EqEq => seq![61u8, 61u8],
        StaticTok::NotEq => seq![33u8, 61u8],
        StaticTok::Eq => seq![61u8],
        StaticTok::Colon => seq![58u8],
        StaticTok::ColonColon => seq![58u8, 58u8],
        StaticTok::Percent => seq![37u8],
        StaticTok::Exclamation => seq![33u8],
        StaticTok::Ampersand => seq![38u8],
        StaticTok::Semicolon => seq![59u8],
        StaticTok::Space => seq![32u8],
        StaticTok::Comma => seq![44u8],
    }
}

/// The static token with the given id, if there is one.
pub open spec fn spec_from_id(id: u8) -> Option<StaticTok> {
    if 1 <= id <= STATIC_TOK_COUNT {
        Some(choose|t: StaticTok| spec_id(t) == id)
    } else {
        None
    }
}

pub proof fn lemma_id_bijective(t: StaticTok)
    ensures
        1 <= spec_id(t) <= STATIC_TOK_COUNT,
        spec_from_id(spec_id(t)) == Some(t),
{
    assert(spec_id(t) == spec_id(t));
    let u = choose|u: StaticTok| spec_id(u) == spec_id(t);
    assert(spec_id(u) == spec_id(t));
    assert(u == t);
}

/// All static tokens, in order of id.
pub open spec fn all_static_toks() -> Seq<StaticTok> {
    seq![
        StaticTok::If,
        StaticTok::For,
        StaticTok::Let,
        StaticTok::Struct,
        StaticTok::Enum,
        StaticTok::Namespace,
        StaticTok::Import,
        StaticTok::Break,
        StaticTok::Continue,
        StaticTok::Proc,
        StaticTok::OpenParen,
        StaticTok::CloseParen,
        StaticTok::OpenCurly,
        StaticTok::CloseCurly,
        StaticTok::OpenSquare,
        StaticTok::CloseSquare,
        StaticTok::LessThan,
        StaticTok::LessThanEq,
        StaticTok::GreaterThan,
        StaticTok::GreaterThanEq,
        StaticTok::EqEq,
        StaticTok::NotEq,
        StaticTok::Eq,
        StaticTok::Colon,
        StaticTok::ColonColon,
        StaticTok::Percent,
        StaticTok::Exclamation,
        StaticTok::Ampersand,
        StaticTok::Semicolon,
        StaticTok::Space,
        StaticTok::Comma,
    ]
}

impl StaticTok {
    /// All static tokens, in order of id.
    pub fn variants() -> (r: [StaticTok; STATIC_TOK_COUNT])
        ensures
            forall|i: int| 0 <= i < STATIC_TOK_COUNT ==> spec_id(#[trigger] r@[i]) == i + 1,
            r@ == all_static_toks(),
    {
        [
            StaticTok::If,
            StaticTok::For,
            StaticTok::Let,
            StaticTok::Struct,
            StaticTok::Enum,
            StaticTok::Namespace,
            StaticTok::Import,
            StaticTok::Break,
            StaticTok::Continue,
            StaticTok::Proc,
            StaticTok::OpenParen,
            StaticTok::CloseParen,
            StaticTok::OpenCurly,
            StaticTok::CloseCurly,
            StaticTok::OpenSquare,
            StaticTok::CloseSquare,
            StaticTok::LessThan,
            StaticTok::LessThanEq,
            StaticTok::GreaterThan,
            StaticTok::GreaterThanEq,
            StaticTok::EqEq,
            StaticTok::NotEq,
            StaticTok::Eq,
            StaticTok::Colon,
            StaticTok::ColonColon,
            StaticTok::Percent,
            StaticTok::Exclamation,
            StaticTok::Ampersand,
            StaticTok::Semicolon,
            StaticTok::Space,
            StaticTok::Comma,
        ]
    }

    pub fn id(self) -> (r: u8)
        ensures
            r == spec_id(self),
            1 <= r <= STATIC_TOK_COUNT,
    {
        match self {
            StaticTok::If => 1,
            StaticTok::For => 2,
            StaticTok::Let => 3,
            StaticTok::Struct => 4,
            StaticTok::Enum => 5,
            StaticTok::Namespace => 6,
            StaticTok::Import => 7,
            StaticTok::Break => 8,
            StaticTok::Continue => 9,
            StaticTok::Proc => 10,
            StaticTok::OpenParen => 11,
            StaticTok::CloseParen => 12,
            StaticTok::OpenCurly => 13,
            StaticTok::CloseCurly => 14,
            StaticTok::OpenSquare => 15,
            StaticTok::CloseSquare => 16,
            StaticTok::LessThan => 17,
            StaticTok::LessThanEq => 18,
            StaticTok::GreaterThan => 19,
            StaticTok::GreaterThanEq => 20,
            StaticTok::EqEq => 21,
            StaticTok::NotEq => 22,
            StaticTok::Eq => 23,
            StaticTok::Colon => 24,
            StaticTok::ColonColon => 25,
            StaticTok::Percent => 26,
            StaticTok::Exclamation => 27,
            StaticTok::Ampersand => 28,
            StaticTok::Semicolon => 29,
            StaticTok::Space => 30,
            StaticTok::Comma => 31,
        }
    }

    pub fn from_id(id: u8) -> (r: Option<StaticTok>)
        ensures
            r == spec_from_id(id),
            r matches Some(t) ==> spec_id(t) == id,
            r is Some <==> 1 <= id <= STATIC_TOK_COUNT,
    {
        if id == 0 || id as usize > STATIC_TOK_COUNT {
            return None;
        }
        let t = Self::variants()[(id - 1) as usize];
        proof {
            lemma_id_bijective(t);
        }
        Some(t)
    }

    pub fn source_text(self) -> (r: &'static [u8])
        ensures
            r@ == spec_source_text(self),
    {
        let r: &'static [u8] = match self {
            StaticTok::If => {
                proof {
                    reveal_strlit("if");
                }
                let b = ascii_bytes("if");
                assert(b@ =~= spec_source_text(StaticTok::If));
                b
            },
            StaticTok::For => {
                proof {
                    reveal_strlit("for");
                }
                let b = ascii_bytes("for");
                assert(b@ =~= spec_source_text(StaticTok::For));
                b
            },
            StaticTok::Let => {
                proof {
                    reveal_strlit("let");
                }
                let b = ascii_bytes("let");
                assert(b@ =~= spec_source_text(StaticTok::Let));
                b
            },
            StaticTok::Struct => {
                proof {
                    reveal_strlit("struct");
                }
                let b = ascii_bytes("struct");
                assert(b@ =~= spec_source_text(StaticTok::Struct));
                b
            },
            StaticTok::Enum => {
                proof {
                    reveal_strlit("enum");
                }
                let b = ascii_bytes("enum");
                assert(b@ =~= spec_source_text(StaticTok::Enum));
                b
            },
            StaticTok::Namespace => {
                proof {
                    reveal_strlit("namespace");
                }
                let b = ascii_bytes("namespace");
                assert(b@ =~= spec_source_text(StaticTok::Namespace));
                b
            },
            StaticTok::Import => {
                proof {
                    reveal_strlit("import");
                }
                let b = ascii_bytes("import");
                assert(b@ =~= spec_source_text(StaticTok::Import));
                b
            },
            StaticTok::Break => {
                proof {
                    reveal_strlit("break");
                }
                let b = ascii_bytes("break");
                assert(b@ =~= spec_source_text(StaticTok::Break));
                b
            },
            StaticTok::Continue => {
                proof {
                    reveal_strlit("continue");
                }
                let b = ascii_bytes("continue");
                assert(b@ =~= spec_source_text(StaticTok::Continue));
                b
            },
            StaticTok::Proc => {
                proof {
                    reveal_strlit("proc");
                }
                let b = ascii_bytes("proc");
                assert(b@ =~= spec_source_text(StaticTok::Proc));
                b
            },
            StaticTok::OpenParen => {
                proof {
                    reveal_strlit("(");
                }
                let b = ascii_bytes("(");
                assert(b@ =~= spec_source_text(StaticTok::OpenParen));
                b
            },
            StaticTok::CloseParen => {
                proof {
                    reveal_strlit(")");
                }
                let b = ascii_bytes(")");
                assert(b@ =~= spec_source_text(StaticTok::CloseParen));
                b
            },
            StaticTok::OpenCurly => {
                proof {
                    reveal_strlit("{");
                }
                let b = ascii_bytes("{");
                assert(b@ =~= spec_source_text(StaticTok::OpenCurly));
                b
            },
            StaticTok::CloseCurly => {
                proof {
                    reveal_strlit("}");
                }
                let b = ascii_bytes("}");
                assert(b@ =~= spec_source_text(StaticTok::CloseCurly));
                b
            },
            StaticTok::OpenSquare => {
                proof {
                    reveal_strlit("[");
                }
                let b = ascii_bytes("[");
                assert(b@ =~= spec_source_text(StaticTok::OpenSquare));
                b
            },
            StaticTok::CloseSquare => {
                proof {
                    reveal_strlit("]");
                }
                let b = ascii_bytes("]");
                assert(b@ =~= spec_source_text(StaticTok::CloseSquare));
                b
            },
            StaticTok::LessThan => {
                proof {
                    reveal_strlit("<");
                }
                let b = ascii_bytes("<");
                assert(b@ =~= spec_source_text(StaticTok::LessThan));
                b
            },
            StaticTok::LessThanEq => {
                proof {
                    reveal_strlit("<=");
                }
                let b = ascii_bytes("<=");
                assert(b@ =~= spec_source_text(StaticTok::LessThanEq));
                b
            },
            StaticTok::GreaterThan => {
                proof {
                    reveal_strlit(">");
                }
                let b = ascii_bytes(">");
                assert(b@ =~= spec_source_text(StaticTok::GreaterThan));
                b
            },
            StaticTok::GreaterThanEq => {
                proof {
                    reveal_strlit(">=");
                }
                let b = ascii_bytes(">=");
                assert(b@ =~= spec_source_text(StaticTok::GreaterThanEq));
                b
            },
            StaticTok::EqEq => {
                proof {
                    reveal_strlit("==");
                }
                let b = ascii_bytes("==");
                assert(b@ =~= spec_source_text(StaticTok::EqEq));
                b
            },
            StaticTok::NotEq => {
                proof {
                    reveal_strlit("!=");
                }
                let b = ascii_bytes("!=");
                assert(b@ =~= spec_source_text(StaticTok::NotEq));
                b
            },
            StaticTok::Eq => {
                proof {
                    reveal_strlit("=");
                }
                let b = ascii_bytes("=");
                assert(b@ =~= spec_source_text(StaticTok::Eq));
                b
            },
            StaticTok::Colon => {
                proof {
                    reveal_strlit(":");
                }
                let b = ascii_bytes(":");
                assert(b@ =~= spec_source_text(StaticTok::Colon));
                b
            },
            StaticTok::ColonColon => {
                proof {
                    reveal_strlit("::");
                }
                let b = ascii_bytes("::");
                assert(b@ =~= spec_source_text(StaticTok::ColonColon));
                b
            },
            StaticTok::Percent => {
                proof {
                    reveal_strlit("%");
                }
                let b = ascii_bytes("%");
                assert(b@ =~= spec_source_text(StaticTok::Percent));
                b
            },
            StaticTok::Exclamation => {
                proof {
                    reveal_strlit("!");
                }
                let b = ascii_bytes("!");
                assert(b@ =~= spec_source_text(StaticTok::Exclamation));
                b
            },
            StaticTok::Ampersand => {
                proof {
                    reveal_strlit("&");
                }
                let b = ascii_bytes("&");
                assert(b@ =~= spec_source_text(StaticTok::Ampersand));
                b
            },
            StaticTok::Semicolon => {
                proof {
                    reveal_strlit(";");
                }
                let b = ascii_bytes(";");
                assert(b@ =~= spec_source_text(StaticTok::Semicolon));
                b
            },
            StaticTok::Space => {
                proof {
                    reveal_strlit(" ");
                }
                let b = ascii_bytes(" ");
                assert(b@ =~= spec_source_text(StaticTok::Space));
                b
            },
            StaticTok::Comma => {
                proof {
                    reveal_strlit(",");
                }
                let b = ascii_bytes(",");
                assert(b@ =~= spec_source_text(StaticTok::Comma));
                b
            },
        };
        r
    }
}

/// The bytes of an ASCII string literal.
fn ascii_bytes(s: &'static str) -> (r: &'static [u8])
    requires
        vstd::string::is_ascii(s),
    ensures
        r@ =~= Seq::new(s@.len(), |i: int| s@[i] as u8),
{
    proof {
        vstd::string::is_ascii_spec_bytes(s);
    }
    s.as_bytes()
}

/// A string literal. Its bytes are the whole literal, the leading quote and the trailing
/// quote (if closed) included.
#[derive(Clone, Copy)]
pub struct StrLiteral<'a> {
    pub str_ref: StrRef<'a>,
}

impl<'a> StrLiteral<'a> {
    /// A literal over its source text, which begins with a double quote.
    pub fn new(source_text: &'a [u8]) -> (r: Self)
        requires
            source_text@.len() > 0,
            source_text@[0] == ascii::DOUBLE_QUOTE,
        ensures
            r.str_ref == StrRef::Slice(source_text),
    {
        StrLiteral { str_ref: StrRef::Slice(source_text) }
    }

    pub fn source_text(&self) -> (r: &'a [u8])
        requires
            self.str_ref.valid(),
        ensures
            r@ == self.str_ref@,
    {
        self.str_ref.get()
    }
}

/// A run of decimal digits, at least one.
#[derive(Clone, Copy)]
pub struct DecIntLiteral<'a> {
    pub str_ref: StrRef<'a>,
}

impl<'a> DecIntLiteral<'a> {
    /// A literal over a non-empty run of digits.
    pub fn new(digits: &'a [u8]) -> (r: Self)
        requires
            digits@.len() > 0,
            forall|i: int| 0 <= i < digits@.len() ==> spec_is_numeric(#[trigger] digits@[i]),
        ensures
            r.str_ref == StrRef::Slice(digits),
    {
        DecIntLiteral { str_ref: StrRef::Slice(digits) }
    }

    pub fn digits(&self) -> (r: &'a [u8])
        requires
            self.str_ref.valid(),
        ensures
            r@ == self.str_ref@,
    {
        self.str_ref.get()
    }
}

/// A run of two or more spaces.
#[derive(Clone, Copy)]
pub struct Align {
    pub count: u32,
}

/// The text after a double slash, up to but not including the next linebreak.
#[derive(Clone, Copy)]
pub struct LineComment<'a> {
    pub str_ref: StrRef<'a>,
}

impl<'a> LineComment<'a> {
    /// A comment over its content, which holds no linebreak.
    pub fn new(content: &'a [u8]) -> (r: Self)
        requires
            forall|i: int| 0 <= i < content@.len() ==> #[trigger] content@[i] != ascii::LINEBREAK,
        ensures
            r.str_ref == StrRef::Slice(content),
    {
        LineComment { str_ref: StrRef::Slice(content) }
    }

    pub fn content(&self) -> (r: &'a [u8])
        requires
            self.str_ref.valid(),
        ensures
            r@ == self.str_ref@,
    {
        self.str_ref.get()
    }
}

/// A byte the lexer could not classify.
#[derive(Clone, Copy)]
pub struct Unexpected {
    pub ch: u8,
}

} // verus!
