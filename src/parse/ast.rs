//! The AST of the Cyan language. Nodes live in arenas and refer to one another by handle; the
//! leaves are references to tokens.
use vstd::prelude::*;
use crate::tok::class::{self, BinaryOperator, Ident, Literal, TokRef};
use crate::tok::delims;
use crate::util::bump_allocator::{BumpAllocator, Handle, LLNode};
use crate::tok::tokbuf::TokBuf;
use crate::util::str_list::StrListKey;

verus! {

pub type AstRef<T> = Handle<T>;

/// Upper bound on the number of nodes of each kind that parsing `tok_count` tokens creates:
/// every node owns at least one token.
pub fn calc_ast_size_upperbound(tok_count: usize) -> (r: usize)
    ensures
        r == tok_count,
{
    tok_count
}

/// The arenas that hold the nodes of an AST, one per kind of list node.
pub struct AstArena {
    pub items: BumpAllocator<TopLevelItemNode>,
    pub parameters: BumpAllocator<ParameterNode>,
    pub type_arguments: BumpAllocator<TypeArgumentNode>,
    pub statements: BumpAllocator<StatementNode>,
}

impl AstArena {
    /// Arenas with room for `size` nodes each.
    pub fn new(size: usize) -> (r: Self)
        ensures
            r.items@.len() == 0 && r.items.capacity() == size,
            r.parameters@.len() == 0 && r.parameters.capacity() == size,
            r.type_arguments@.len() == 0 && r.type_arguments.capacity() == size,
            r.statements@.len() == 0 && r.statements.capacity() == size,
    {
        AstArena {
            items: BumpAllocator::new(size),
            parameters: BumpAllocator::new(size),
            type_arguments: BumpAllocator::new(size),
            statements: BumpAllocator::new(size),
        }
    }

    /// Drops the unused room of every arena.
    pub fn shrink_to_fit(&mut self)
        ensures
            final(self).items@ == old(self).items@,
            final(self).parameters@ == old(self).parameters@,
            final(self).type_arguments@ == old(self).type_arguments@,
            final(self).statements@ == old(self).statements@,
            final(self).items.capacity() == old(self).items@.len(),
            final(self).parameters.capacity() == old(self).parameters@.len(),
            final(self).type_arguments.capacity() == old(self).type_arguments@.len(),
            final(self).statements.capacity() == old(self).statements@.len(),
    {
        self.items.shrink_to_fit();
        self.parameters.shrink_to_fit();
        self.type_arguments.shrink_to_fit();
        self.statements.shrink_to_fit();
    }
}

pub struct Ast {
    pub mem: AstArena,
    pub root: Root,
}

// -- Root ----------------------------------------------------------------------------------------

/// The top-level items of a source unit, as a list in the arena.
pub struct Root {
    pub ll_head: Option<AstRef<TopLevelItemNode>>,
}

pub enum AnyTopLevelItem {
    Proc(ProcDefinition),
    LineComment(LineComment),
}

pub type TopLevelItemNode = LLNode<AnyTopLevelItem>;

// -- Expressions ---------------------------------------------------------------------------------

pub enum ExprNode {
    Ident(IdentExpr),
    Infix(InfixExpr),
    Literal(LiteralExpr),
}

pub struct IdentExpr {
    pub ident: TokRef<Ident>,
}

pub struct InfixExpr {
    pub left_operand: AstRef<ExprNode>,
    pub operator: TokRef<BinaryOperator>,
    pub right_operand: AstRef<ExprNode>,
}

pub struct LiteralExpr {
    pub tok: TokRef<Literal>,
}

// -- Types ---------------------------------------------------------------------------------------

pub enum Type {
    NamedType(NamedType),
}

pub struct NamedType {
    pub ident: TokRef<Ident>,
    pub arguments: Option<TypeArguments>,
}

pub struct TypeArguments {
    pub open_angle: TokRef<delims::LessThan>,
    pub first: Option<AstRef<TypeArgumentNode>>,
    pub close_angle: TokRef<delims::GreaterThan>,
}

pub struct TypeArgument {
    pub ty: Type,
    pub comma: Option<TokRef<delims::Comma>>,
}

pub type TypeArgumentNode = LLNode<TypeArgument>;

// -- Procedure definition ------------------------------------------------------------------------

pub struct ProcDefinition {
    pub proc_keyword: TokRef<delims::Proc>,
    pub ident: TokRef<Ident>,
    pub parameters: Parameters,
    pub return_type_separator: TokRef<delims::Colon>,
    pub return_type: Type,
    pub body: ImperativeBlock,
}

pub struct Parameters {
    pub open_paren: TokRef<delims::OpenParen>,
    pub close_paren: TokRef<delims::CloseParen>,
    pub first: Option<AstRef<ParameterNode>>,
}

pub struct Parameter {
    pub ident: TokRef<Ident>,
    pub colon: TokRef<delims::Colon>,
    pub ty: Type,
    pub comma: Option<TokRef<delims::Comma>>,
}

pub type ParameterNode = LLNode<Parameter>;

// -- Statements ----------------------------------------------------------------------------------

pub struct ImperativeBlock {
    pub open_curly: TokRef<delims::OpenCurly>,
    pub close_curly: TokRef<delims::CloseCurly>,
    pub first: Option<AstRef<StatementNode>>,
}

pub enum AnyStatement {
    LineComment,
}

pub type StatementNode = LLNode<AnyStatement>;

// -- Line comment --------------------------------------------------------------------------------

pub struct LineComment {
    pub tok: TokRef<class::LineComment>,
}

// -- Token references ----------------------------------------------------------------------------

/// An optional reference names a token of its class, if present.
pub open spec fn opt_names<C: class::TokClass>(
    r: Option<TokRef<C>>,
    tb: &TokBuf,
    strs: Map<StrListKey, Seq<u8>>,
) -> bool {
    match r {
        Some(t) => t.names(tb, strs),
        None => true,
    }
}

impl Type {
    /// Every token reference the node holds names a token of its class.
    pub open spec fn refs_ok(&self, tb: &TokBuf, strs: Map<StrListKey, Seq<u8>>) -> bool {
        match self {
            Type::NamedType(n) => n.ident.names(tb, strs) && match n.arguments {
                Some(a) => a.open_angle.names(tb, strs) && a.close_angle.names(tb, strs),
                None => true,
            },
        }
    }
}

impl TypeArgument {
    pub open spec fn refs_ok(&self, tb: &TokBuf, strs: Map<StrListKey, Seq<u8>>) -> bool {
        self.ty.refs_ok(tb, strs) && opt_names(self.comma, tb, strs)
    }
}

impl Parameter {
    pub open spec fn refs_ok(&self, tb: &TokBuf, strs: Map<StrListKey, Seq<u8>>) -> bool {
        &&& self.ident.names(tb, strs)
        &&& self.colon.names(tb, strs)
        &&& self.ty.refs_ok(tb, strs)
        &&& opt_names(self.comma, tb, strs)
    }
}

impl Parameters {
    pub open spec fn refs_ok(&self, tb: &TokBuf, strs: Map<StrListKey, Seq<u8>>) -> bool {
        self.open_paren.names(tb, strs) && self.close_paren.names(tb, strs)
    }
}

impl ImperativeBlock {
    pub open spec fn refs_ok(&self, tb: &TokBuf, strs: Map<StrListKey, Seq<u8>>) -> bool {
        self.open_curly.names(tb, strs) && self.close_curly.names(tb, strs)
    }
}

impl ProcDefinition {
    pub open spec fn refs_ok(&self, tb: &TokBuf, strs: Map<StrListKey, Seq<u8>>) -> bool {
        &&& self.proc_keyword.names(tb, strs)
        &&& self.ident.names(tb, strs)
        &&& self.parameters.refs_ok(tb, strs)
        &&& self.return_type_separator.names(tb, strs)
        &&& self.return_type.refs_ok(tb, strs)
        &&& self.body.refs_ok(tb, strs)
    }
}

impl AnyTopLevelItem {
    pub open spec fn refs_ok(&self, tb: &TokBuf, strs: Map<StrListKey, Seq<u8>>) -> bool {
        match self {
            AnyTopLevelItem::Proc(p) => p.refs_ok(tb, strs),
            AnyTopLevelItem::LineComment(c) => c.tok.names(tb, strs),
        }
    }
}

impl Ast {
    /// Every token reference held by a node of the AST names a token of its class.
    pub open spec fn refs_ok(&self, tb: &TokBuf, strs: Map<StrListKey, Seq<u8>>) -> bool {
        &&& forall|k: int| 0 <= k < self.mem.items@.len() ==> (#[trigger] self.mem.items@[k]).value.refs_ok(tb, strs)
        &&& forall|k: int| 0 <= k < self.mem.parameters@.len() ==> (#[trigger] self.mem.parameters@[k]).value.refs_ok(tb, strs)
        &&& forall|k: int| 0 <= k < self.mem.type_arguments@.len() ==> (#[trigger] self.mem.type_arguments@[k]).value.refs_ok(tb, strs)
    }
}

} // verus!
