use vstd::prelude::*;
use std::marker::PhantomData;
use crate::tok::tok::{self as tokens, DecIntLiteral, StaticTok, StrLiteral, Tok, TokModel};
use crate::tok::tokbuf::{Key, TokBuf, TokCursor};
use crate::util::str_list::{StrListKey};

verus! {

/// A reference to a token of class `C` in a token buffer: the leaves of the AST.
#[derive(Copy)]
pub struct TokRef<C: TokClass> {
    pd: PhantomData<C>,
    key: Key,
}

impl<C: TokClass> Clone for TokRef<C> {
    fn clone(&self) -> (r: Self)
        ensures
            r.key() == self.key(),
    {
        TokRef { pd: PhantomData, key: self.key }
    }
}

impl<C: TokClass> TokRef<C> {
    pub closed spec fn key(&self) -> Key {
        self.key
    }

    /// The key locates a token of class `C`.
    pub open spec fn names(&self, tokbuf: &TokBuf, strs: Map<StrListKey, Seq<u8>>) -> bool {
        match tokbuf.tok_at(strs, self.key().spec_addr() as int, self.key().spec_pack_idx() as int) {
            Some(t) => C::spec_matches(t),
            None => false,
        }
    }

    pub fn get_key(&self) -> (r: Key)
        ensures
            r == self.key(),
    {
        self.key
    }
}

/// A class of tokens, such as "binary operators" or "item declarators".
pub trait TokClass: Sized + Copy {
    type View<'a>;

    /// Whether a token belongs to the class.
    spec fn spec_matches(t: TokModel) -> bool;

    /// If `tok` belongs to this class, its view.
    fn match_view<'a>(tok: &Tok<'a>) -> (r: Option<Self::View<'a>>)
        ensures
            r is Some <==> Self::spec_matches(tok@),
    ;
}

impl<'a> TokCursor<'a> {
    /// A reference to the token at the cursor, if it belongs to class `C`.
    pub fn match_ref<C: TokClass>(&self) -> (r: Option<TokRef<C>>)
        requires
            self.wf(),
        ensures
            r is Some <==> (self.index() < self.tokbuf().toks().len() && C::spec_matches(
                self.tokbuf().toks()[self.index()],
            )),
            r matches Some(tr) ==> tr.key() == self.key() && tr.names(
                self.tokbuf(),
                self.interner().strs(),
            ),
    {
        let next = match self.read() {
            Some(t) => t,
            None => {
                return None;
            },
        };
        if C::match_view(&next).is_none() {
            return None;
        }
        proof {
            self.lemma_key_reads();
        }
        Some(TokRef { pd: PhantomData, key: self.at() })
    }

    /// The view of the token at the cursor, if it belongs to class `C`.
    pub fn match_view<C: TokClass>(&self) -> (r: Option<C::View<'a>>)
        requires
            self.wf(),
        ensures
            r is Some <==> (self.index() < self.tokbuf().toks().len() && C::spec_matches(
                self.tokbuf().toks()[self.index()],
            )),
    {
        let next = match self.read() {
            Some(t) => t,
            None => {
                return None;
            },
        };
        C::match_view(&next)
    }
}

// -- Binary operators ----------------------------------------------------------------------------

#[derive(Clone, Copy, PartialEq, Eq, Structural)]
pub enum BinaryOperator {
    LessThan,
    LessThanEq,
    GreaterThan,
    GreaterThanEq,
    EqEq,
    NotEq,
    Eq,
}

impl TokClass for BinaryOperator {
    type View<'a> = Self;

    open spec fn spec_matches(t: TokModel) -> bool {
        match t {
            TokModel::Static(s) => s == StaticTok::LessThan || s == StaticTok::LessThanEq || s
                == StaticTok::GreaterThan || s == StaticTok::GreaterThanEq || s == StaticTok::EqEq
                || s == StaticTok::NotEq || s == StaticTok::Eq,
            _ => false,
        }
    }

    fn match_view<'a>(tok: &Tok<'a>) -> (r: Option<Self>) {
        match tok {
            Tok::Static(StaticTok::LessThan) => Some(BinaryOperator::LessThan),
            Tok::Static(StaticTok::LessThanEq) => Some(BinaryOperator::LessThanEq),
            Tok::Static(StaticTok::GreaterThan) => Some(BinaryOperator::GreaterThan),
            Tok::Static(StaticTok::GreaterThanEq) => Some(BinaryOperator::GreaterThanEq),
            Tok::Static(StaticTok::EqEq) => Some(BinaryOperator::EqEq),
            Tok::Static(StaticTok::NotEq) => Some(BinaryOperator::NotEq),
            Tok::Static(StaticTok::Eq) => Some(BinaryOperator::Eq),
            _ => None,
        }
    }
}

// -- Ident ---------------------------------------------------------------------------------------

#[derive(Clone, Copy)]
pub struct Ident;

impl TokClass for Ident {
    type View<'a> = crate::tok::ident::Ident<'a>;

    open spec fn spec_matches(t: TokModel) -> bool {
        t is Ident
    }

    fn match_view<'a>(tok: &Tok<'a>) -> (r: Option<crate::tok::ident::Ident<'a>>) {
        match tok {
            Tok::Ident(ident) => Some(*ident),
            _ => None,
        }
    }
}

// -- Literal -------------------------------------------------------------------------------------

#[derive(Clone, Copy)]
pub enum AnyLiteral<'a> {
    Str(StrLiteral<'a>),
    DecInt(DecIntLiteral<'a>),
}

#[derive(Clone, Copy)]
pub struct Literal;

impl TokClass for Literal {
    type View<'a> = AnyLiteral<'a>;

    open spec fn spec_matches(t: TokModel) -> bool {
        t is StrLiteral || t is DecIntLiteral
    }

    fn match_view<'a>(tok: &Tok<'a>) -> (r: Option<AnyLiteral<'a>>) {
        match tok {
            Tok::StrLiteral(lit) => Some(AnyLiteral::Str(*lit)),
            Tok::DecIntLiteral(lit) => Some(AnyLiteral::DecInt(*lit)),
            _ => None,
        }
    }
}

// -- Item declarators ----------------------------------------------------------------------------

/// The tokens that begin a top-level item.
#[derive(Clone, Copy, PartialEq, Eq, Structural)]
pub enum ItemDeclarator {
    Proc,
    Struct,
    Enum,
    LineComment,
}

impl TokClass for ItemDeclarator {
    type View<'a> = Self;

    open spec fn spec_matches(t: TokModel) -> bool {
        match t {
            TokModel::Static(s) => s == StaticTok::Proc || s == StaticTok::Struct || s
                == StaticTok::Enum,
            TokModel::LineComment(_) => true,
            _ => false,
        }
    }

    fn match_view<'a>(tok: &Tok<'a>) -> (r: Option<Self>) {
        declarator_of(tok)
    }
}

/// The declarator that `tok` is, if it is one.
pub fn declarator_of(tok: &Tok) -> (r: Option<ItemDeclarator>)
    ensures
        r == if ItemDeclarator::spec_matches(tok@) {
            Some(spec_declarator(tok@))
        } else {
            None
        },
{
    match tok {
        Tok::Static(StaticTok::Proc) => Some(ItemDeclarator::Proc),
        Tok::Static(StaticTok::Struct) => Some(ItemDeclarator::Struct),
        Tok::Static(StaticTok::Enum) => Some(ItemDeclarator::Enum),
        Tok::LineComment(_) => Some(ItemDeclarator::LineComment),
        _ => None,
    }
}

/// The declarator that a token of the class is.
pub open spec fn spec_declarator(t: TokModel) -> ItemDeclarator {
    match t {
        TokModel::Static(StaticTok::Proc) => ItemDeclarator::Proc,
        TokModel::Static(StaticTok::Struct) => ItemDeclarator::Struct,
        TokModel::Static(StaticTok::Enum) => ItemDeclarator::Enum,
        _ => ItemDeclarator::LineComment,
    }
}

// -- Formatting ----------------------------------------------------------------------------------

/// Whitespace: a single space, a linebreak or an alignment run.
#[derive(Clone, Copy)]
pub struct Formatting;

impl TokClass for Formatting {
    type View<'a> = Self;

    open spec fn spec_matches(t: TokModel) -> bool {
        t == TokModel::Static(StaticTok::Space) || t is Linebreak || t is Align
    }

    fn match_view<'a>(tok: &Tok<'a>) -> (r: Option<Self>) {
        match tok {
            Tok::Static(StaticTok::Space) => Some(Formatting),
            Tok::Linebreak => Some(Formatting),
            Tok::Align(_) => Some(Formatting),
            _ => None,
        }
    }
}

// -- Line comments -------------------------------------------------------------------------------

#[derive(Clone, Copy)]
pub struct LineComment;

pub struct LineCommentView<'a> {
    pub value: tokens::LineComment<'a>,
}

impl TokClass for LineComment {
    type View<'a> = LineCommentView<'a>;

    open spec fn spec_matches(t: TokModel) -> bool {
        t is LineComment
    }

    fn match_view<'a>(tok: &Tok<'a>) -> (r: Option<LineCommentView<'a>>) {
        match tok {
            Tok::LineComment(value) => Some(LineCommentView { value: *value }),
            _ => None,
        }
    }
}

} // verus!
