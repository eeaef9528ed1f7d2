use vstd::prelude::*;
use crate::tok::class::TokClass;
use crate::tok::tok::{StaticTok, Tok, TokModel};

verus! {

/// The `OpenCurly` token.
#[derive(Clone, Copy)]
pub struct OpenCurly;

impl TokClass for OpenCurly {
    type View<'a> = Self;

    open spec fn spec_matches(t: TokModel) -> bool {
        t == TokModel::Static(StaticTok::OpenCurly)
    }

    fn match_view<'a>(tok: &Tok<'a>) -> (r: Option<Self>) {
        match tok {
            Tok::Static(StaticTok::OpenCurly) => Some(OpenCurly),
            _ => None,
        }
    }
}

/// The `CloseCurly` token.
#[derive(Clone, Copy)]
pub struct CloseCurly;

impl TokClass for CloseCurly {
    type View<'a> = Self;

    open spec fn spec_matches(t: TokModel) -> bool {
        t == TokModel::Static(StaticTok::CloseCurly)
    }

    fn match_view<'a>(tok: &Tok<'a>) -> (r: Option<Self>) {
        match tok {
            Tok::Static(StaticTok::CloseCurly) => Some(CloseCurly),
            _ => None,
        }
    }
}

/// The `OpenParen` token.
#[derive(Clone, Copy)]
pub struct OpenParen;

impl TokClass for OpenParen {
    type View<'a> = Self;

    open spec fn spec_matches(t: TokModel) -> bool {
        t == TokModel::Static(StaticTok::OpenParen)
    }

    fn match_view<'a>(tok: &Tok<'a>) -> (r: Option<Self>) {
        match tok {
            Tok::Static(StaticTok::OpenParen) => Some(OpenParen),
            _ => None,
        }
    }
}

/// The `CloseParen` token.
#[derive(Clone, Copy)]
pub struct CloseParen;

impl TokClass for CloseParen {
    type View<'a> = Self;

    open spec fn spec_matches(t: TokModel) -> bool {
        t == TokModel::Static(StaticTok::CloseParen)
    }

    fn match_view<'a>(tok: &Tok<'a>) -> (r: Option<Self>) {
        match tok {
            Tok::Static(StaticTok::CloseParen) => Some(CloseParen),
            _ => None,
        }
    }
}

/// The `LessThan` token.
#[derive(Clone, Copy)]
pub struct LessThan;

impl TokClass for LessThan {
    type View<'a> = Self;

    open spec fn spec_matches(t: TokModel) -> bool {
        t == TokModel::Static(StaticTok::LessThan)
    }

    fn match_view<'a>(tok: &Tok<'a>) -> (r: Option<Self>) {
        match tok {
            Tok::Static(StaticTok::LessThan) => Some(LessThan),
            _ => None,
        }
    }
}

/// The `GreaterThan` token.
#[derive(Clone, Copy)]
pub struct GreaterThan;

impl TokClass for GreaterThan {
    type View<'a> = Self;

    open spec fn spec_matches(t: TokModel) -> bool {
        t == TokModel::Static(StaticTok::GreaterThan)
    }

    fn match_view<'a>(tok: &Tok<'a>) -> (r: Option<Self>) {
        match tok {
            Tok::Static(StaticTok::GreaterThan) => Some(GreaterThan),
            _ => None,
        }
    }
}

/// The `Proc` token.
#[derive(Clone, Copy)]
pub struct Proc;

impl TokClass for Proc {
    type View<'a> = Self;

    open spec fn spec_matches(t: TokModel) -> bool {
        t == TokModel::Static(StaticTok::Proc)
    }

    fn match_view<'a>(tok: &Tok<'a>) -> (r: Option<Self>) {
        match tok {
            Tok::Static(StaticTok::Proc) => Some(Proc),
            _ => None,
        }
    }
}

/// The `Comma` token.
#[derive(Clone, Copy)]
pub struct Comma;

impl TokClass for Comma {
    type View<'a> = Self;

    open spec fn spec_matches(t: TokModel) -> bool {
        t == TokModel::Static(StaticTok::Comma)
    }

    fn match_view<'a>(tok: &Tok<'a>) -> (r: Option<Self>) {
        match tok {
            Tok::Static(StaticTok::Comma) => Some(Comma),
            _ => None,
        }
    }
}

/// The `Colon` token.
#[derive(Clone, Copy)]
pub struct Colon;

impl TokClass for Colon {
    type View<'a> = Self;

    open spec fn spec_matches(t: TokModel) -> bool {
        t == TokModel::Static(StaticTok::Colon)
    }

    fn match_view<'a>(tok: &Tok<'a>) -> (r: Option<Self>) {
        match tok {
            Tok::Static(StaticTok::Colon) => Some(Colon),
            _ => None,
        }
    }
}

} // verus!
