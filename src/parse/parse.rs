use vstd::prelude::*;
use crate::diagnostic::{AnyDiagnostic, MissingTok};
use crate::parse::ast::{self, Ast, AstArena, AstRef, calc_ast_size_upperbound};
use crate::source_unit::SourceUnitId;
use crate::tok::class::{
    self, declarator_of, spec_declarator, Formatting, ItemDeclarator, TokClass, TokRef,
};
use crate::tok::delims;
use crate::tok::tok::{StaticTok, TokModel};
use crate::tok::tokbuf::{TokBuf, TokCursor};
use crate::util::bump_allocator::{extend_ll, ll_linked, link_key, lemma_ll_frame};
use crate::util::str_interner::StrInterner;
use crate::util::str_list::StrListKey;

verus! {

// -- Grammar -------------------------------------------------------------------------------------

/// The first index from `i` on whose token is not of class `C` (or the end).
pub open spec fn skip_class<C: TokClass>(t: Seq<TokModel>, i: int) -> int
    decreases t.len() - i,
{
    if 0 <= i < t.len() && C::spec_matches(t[i]) {
        skip_class::<C>(t, i + 1)
    } else {
        i
    }
}

/// The first index from `i` on that holds no formatting token.
pub open spec fn skip_fmt(t: Seq<TokModel>, i: int) -> int {
    skip_class::<Formatting>(t, i)
}

/// The first index from `i` on whose token is of class `C` (or the end).
pub open spec fn sync_spec<C: TokClass>(t: Seq<TokModel>, i: int) -> int
    decreases t.len() - i,
{
    if 0 <= i < t.len() && !C::spec_matches(t[i]) {
        sync_spec::<C>(t, i + 1)
    } else {
        i
    }
}

/// Expecting a token of class `C` after formatting at `i`: `Ok` with the index just past it, or
/// `Err` with the index where it is missing.
pub open spec fn expect_spec<C: TokClass>(t: Seq<TokModel>, i: int) -> Result<int, int> {
    let j = skip_fmt(t, i);
    if 0 <= j < t.len() && C::spec_matches(t[j]) {
        Ok(j + 1)
    } else {
        Err(j)
    }
}

/// Type = Ident TypeArguments?: `Ok` with the index where the cursor stops.
pub open spec fn type_spec(t: Seq<TokModel>, i: int) -> Result<int, int>
    decreases t.len() - i, 2nat,
{
    match expect_spec::<class::Ident>(t, i) {
        Err(f) => Err(f),
        Ok(k) => {
            let j = skip_fmt(t, k);
            if 0 <= j < t.len() && delims::LessThan::spec_matches(t[j]) {
                if j > i {
                    match targs_spec(t, j) {
                        Ok(r) => Ok(r.0),
                        Err(f) => Err(f),
                    }
                } else {
                    Err(j)
                }
            } else {
                Ok(j)
            }
        },
    }
}

/// TypeArguments = `<` ( Type ( `,` Type )* `,`? )? `>`, the `<` at `i`: `Ok` with the index
/// past the `>` and the number of arguments.
pub open spec fn targs_spec(t: Seq<TokModel>, i: int) -> Result<(int, Seq<int>), int>
    decreases t.len() - i, 1nat,
{
    if 0 <= i < t.len() {
        targs_loop(t, i + 1, Seq::empty())
    } else {
        Err(i)
    }
}

pub open spec fn close_with<C: TokClass>(t: Seq<TokModel>, k: int, acc: Seq<int>) -> Result<(int, Seq<int>), int> {
    match expect_spec::<C>(t, k) {
        Ok(e) => Ok((e, acc)),
        Err(f) => Err(f),
    }
}

/// The arguments from `k` on; `acc` holds where each argument read already begins.
pub open spec fn targs_loop(t: Seq<TokModel>, k: int, acc: Seq<int>) -> Result<(int, Seq<int>), int>
    decreases t.len() - k, 3nat,
{
    if k >= t.len() {
        close_with::<delims::GreaterThan>(t, k, acc)
    } else {
        let j = skip_fmt(t, k);
        if 0 <= j < t.len() && delims::GreaterThan::spec_matches(t[j]) {
            close_with::<delims::GreaterThan>(t, j, acc)
        } else if j < k || j > t.len() {
            Err(j)
        } else {
            match type_spec(t, j) {
                Err(f) => Err(f),
                Ok(e) => {
                    let c = skip_fmt(t, e);
                    if 0 <= c < t.len() && delims::Comma::spec_matches(t[c]) {
                        if c + 1 > k {
                            targs_loop(t, c + 1, acc.push(j))
                        } else {
                            Err(c)
                        }
                    } else {
                        close_with::<delims::GreaterThan>(t, c, acc.push(j))
                    }
                },
            }
        }
    }
}

/// The parameters from `k` on; `acc` holds the index of the name of each parameter read already.
pub open spec fn params_loop(t: Seq<TokModel>, k: int, acc: Seq<int>) -> Result<(int, Seq<int>), int>
    decreases t.len() - k,
{
    if k >= t.len() {
        close_with::<delims::CloseParen>(t, k, acc)
    } else {
        let j = skip_fmt(t, k);
        if 0 <= j < t.len() && delims::CloseParen::spec_matches(t[j]) {
            close_with::<delims::CloseParen>(t, j, acc)
        } else {
            match expect_spec::<class::Ident>(t, j) {
                Err(f) => Err(f),
                Ok(a) => match expect_spec::<delims::Colon>(t, a) {
                    Err(f) => Err(f),
                    Ok(b) => match type_spec(t, b) {
                        Err(f) => Err(f),
                        Ok(e) => {
                            let c = skip_fmt(t, e);
                            if 0 <= c < t.len() && delims::Comma::spec_matches(t[c]) {
                                if c + 1 > k {
                                    params_loop(t, c + 1, acc.push(j))
                                } else {
                                    Err(c)
                                }
                            } else {
                                close_with::<delims::CloseParen>(t, c, acc.push(j))
                            }
                        },
                    },
                },
            }
        }
    }
}

/// Parameters = `(` ( Ident `:` Type ( `,` Ident `:` Type )* `,`? )? `)`: `Ok` with the index past
/// the `)` and the number of parameters.
pub open spec fn params_spec(t: Seq<TokModel>, i: int) -> Result<(int, Seq<int>), int> {
    match expect_spec::<delims::OpenParen>(t, i) {
        Err(f) => Err(f),
        Ok(k) => params_loop(t, k, Seq::empty()),
    }
}

/// ImperativeBlock = `{` `}`.
pub open spec fn block_spec(t: Seq<TokModel>, i: int) -> Result<int, int> {
    match expect_spec::<delims::OpenCurly>(t, i) {
        Err(f) => Err(f),
        Ok(k) => expect_spec::<delims::CloseCurly>(t, k),
    }
}

/// ProcDefinition = `proc` Ident Parameters `:` Type ImperativeBlock, the `proc` at `i`.
pub open spec fn proc_spec(t: Seq<TokModel>, i: int) -> Result<int, int> {
    match expect_spec::<class::Ident>(t, i + 1) {
        Err(f) => Err(f),
        Ok(a) => match params_spec(t, a) {
            Err(f) => Err(f),
            Ok(b) => match expect_spec::<delims::Colon>(t, b.0) {
                Err(f) => Err(f),
                Ok(c) => match type_spec(t, c) {
                    Err(f) => Err(f),
                    Ok(d) => block_spec(t, d),
                },
            },
        },
    }
}

/// The top-level item whose declarator is at `j`. Structs and enums have no grammar yet: they
/// fail just past their keyword.
pub open spec fn item_spec(t: Seq<TokModel>, j: int) -> Result<int, int> {
    match spec_declarator(t[j]) {
        ItemDeclarator::Proc => proc_spec(t, j),
        ItemDeclarator::LineComment => Ok(j + 1),
        _ => Err(j + 1),
    }
}

/// The items of a source unit from `i` on, by the index of their declarator, and the indices
/// where a missing token is reported, both in source order. After a failure, parsing resumes
/// at the next item declarator.
pub open spec fn root_spec(t: Seq<TokModel>, i: int) -> (Seq<int>, Seq<int>)
    decreases t.len() - i,
{
    if i < 0 || i >= t.len() {
        (Seq::empty(), Seq::empty())
    } else {
        let j = skip_fmt(t, i);
        if 0 <= j < t.len() && ItemDeclarator::spec_matches(t[j]) {
            match item_spec(t, j) {
                Ok(e) => if i < e <= t.len() {
                    let r = root_spec(t, e);
                    (seq![j] + r.0, r.1)
                } else {
                    (seq![j], Seq::empty())
                },
                Err(f) => {
                    let s = sync_spec::<ItemDeclarator>(t, f);
                    if i < s <= t.len() {
                        let r = root_spec(t, s);
                        (r.0, seq![f] + r.1)
                    } else {
                        (Seq::empty(), seq![f])
                    }
                },
            }
        } else {
            let s = sync_spec::<ItemDeclarator>(t, j);
            if i < s <= t.len() {
                let r = root_spec(t, s);
                (r.0, seq![j] + r.1)
            } else {
                (Seq::empty(), seq![j])
            }
        }
    }
}

/// `d` reports a missing token of `source_unit` at the position of token `i` of `tb`.
pub open spec fn missing_at(d: AnyDiagnostic, source_unit: SourceUnitId, tb: &TokBuf, i: int) -> bool {
    match d {
        AnyDiagnostic::MissingTok(m) => m.source_unit == source_unit && (
            m.at.spec_addr() as int,
            m.at.spec_pack_idx() as int,
        ) == tb.pos_of(i),
    }
}

/// `ty` is the type that begins, after formatting, at token `i`: its name is the identifier
/// there, and it has arguments exactly when a `<` follows, with their brackets at the tokens read.
pub open spec fn type_at(ty: ast::Type, tb: &TokBuf, t: Seq<TokModel>, i: int) -> bool {
    let name = skip_fmt(t, i);
    let j = skip_fmt(t, name + 1);
    match ty {
        ast::Type::NamedType(n) => {
            &&& ref_pos(n.ident) == tb.pos_of(name)
            &&& (n.arguments is Some) <==> (0 <= j < t.len() && delims::LessThan::spec_matches(t[j]))
            &&& match n.arguments {
                Some(a) => {
                    &&& ref_pos(a.open_angle) == tb.pos_of(j)
                    &&& match targs_spec(t, j) {
                        Ok(q) => ref_pos(a.close_angle) == tb.pos_of(q.0 - 1) && ((a.first is None)
                            <==> q.1.len() == 0),
                        Err(_) => false,
                    }
                },
                None => true,
            }
        },
    }
}

/// `c` is the comma that follows, after formatting, token `e`, if there is one.
pub open spec fn comma_at(c: Option<TokRef<delims::Comma>>, tb: &TokBuf, t: Seq<TokModel>, e: int) -> bool {
    let k = skip_fmt(t, e);
    &&& (c is Some) <==> (0 <= k < t.len() && delims::Comma::spec_matches(t[k]))
    &&& c matches Some(r) ==> ref_pos(r) == tb.pos_of(k)
}

/// `a` is the type argument that begins at token `s`, with the comma after it if any.
pub open spec fn targ_at(a: ast::TypeArgument, tb: &TokBuf, t: Seq<TokModel>, s: int) -> bool {
    &&& type_at(a.ty, tb, t, s)
    &&& match type_spec(t, s) {
        Ok(e) => comma_at(a.comma, tb, t, e),
        Err(_) => false,
    }
}

/// `p` is the parameter whose name is token `j`: its colon, its type and the comma after it.
pub open spec fn param_at(p: ast::Parameter, tb: &TokBuf, t: Seq<TokModel>, j: int) -> bool {
    let colon = skip_fmt(t, j + 1);
    &&& ref_pos(p.ident) == tb.pos_of(j)
    &&& ref_pos(p.colon) == tb.pos_of(colon)
    &&& type_at(p.ty, tb, t, colon + 1)
    &&& match type_spec(t, colon + 1) {
        Ok(e) => comma_at(p.comma, tb, t, e),
        Err(_) => false,
    }
}

/// `item` is the item whose declarator is token `j`: its kind follows the declarator and its
/// references point at the tokens the grammar gives.
pub open spec fn item_at(item: ast::AnyTopLevelItem, tb: &TokBuf, t: Seq<TokModel>, j: int) -> bool {
    match item {
        ast::AnyTopLevelItem::Proc(p) => {
            let name = skip_fmt(t, j + 1);
            &&& t[j] == TokModel::Static(StaticTok::Proc)
            &&& ref_pos(p.proc_keyword) == tb.pos_of(j)
            &&& ref_pos(p.ident) == tb.pos_of(name)
            &&& match params_spec(t, name + 1) {
                Ok(q) => {
                    let colon = skip_fmt(t, q.0);
                    &&& (p.parameters.first is None) <==> q.1.len() == 0
                    &&& ref_pos(p.parameters.open_paren) == tb.pos_of(skip_fmt(t, name + 1))
                    &&& ref_pos(p.parameters.close_paren) == tb.pos_of(q.0 - 1)
                    &&& ref_pos(p.return_type_separator) == tb.pos_of(colon)
                    &&& type_at(p.return_type, tb, t, colon + 1)
                    &&& match type_spec(t, colon + 1) {
                        Ok(d) => {
                            let open = skip_fmt(t, d);
                            &&& ref_pos(p.body.open_curly) == tb.pos_of(open)
                            &&& ref_pos(p.body.close_curly) == tb.pos_of(skip_fmt(t, open + 1))
                        },
                        Err(_) => false,
                    }
                },
                Err(_) => false,
            }
            &&& p.body.first is None
        },
        ast::AnyTopLevelItem::LineComment(c) => t[j] is LineComment && ref_pos(c.tok) == tb.pos_of(j),
    }
}

/// The key of a token reference, as a position.
pub open spec fn ref_pos<C: TokClass>(r: TokRef<C>) -> (int, int) {
    (r.key().spec_addr() as int, r.key().spec_pack_idx() as int)
}

proof fn lemma_skip_class<C: TokClass>(t: Seq<TokModel>, i: int)
    requires
        0 <= i <= t.len(),
    ensures
        i <= skip_class::<C>(t, i) <= t.len(),
        skip_class::<C>(t, i) < t.len() ==> !C::spec_matches(t[skip_class::<C>(t, i)]),
        skip_class::<C>(t, skip_class::<C>(t, i)) == skip_class::<C>(t, i),
    decreases t.len() - i,
{
    if i < t.len() && C::spec_matches(t[i]) {
        lemma_skip_class::<C>(t, i + 1);
    }
}

proof fn lemma_sync<C: TokClass>(t: Seq<TokModel>, i: int)
    requires
        0 <= i <= t.len(),
    ensures
        i <= sync_spec::<C>(t, i) <= t.len(),
        sync_spec::<C>(t, i) < t.len() ==> C::spec_matches(t[sync_spec::<C>(t, i)]),
    decreases t.len() - i,
{
    if i < t.len() && !C::spec_matches(t[i]) {
        lemma_sync::<C>(t, i + 1);
    }
}

// -- TokStream -----------------------------------------------------------------------------------

/// The parser's view of the token buffer.
struct TokStream<'a> {
    cursor: TokCursor<'a>,
}

impl<'a> TokStream<'a> {
    fn new(tokbuf: &'a TokBuf, interner: &'a StrInterner) -> (r: Self)
        requires
            tokbuf.wf(interner.strs()),
            interner.wf(),
        ensures
            r.cursor.wf(),
            r.cursor.index() == 0,
            r.cursor.tokbuf() == tokbuf,
            r.cursor.interner() == interner,
    {
        TokStream { cursor: TokCursor::new(tokbuf, interner) }
    }

    spec fn toks(&self) -> Seq<TokModel> {
        self.cursor.tokbuf().toks()
    }

    spec fn idx(&self) -> int {
        self.cursor.index()
    }

    /// The same buffer, read from the same place or further on.
    spec fn moved_on(&self, old: &TokStream<'a>) -> bool {
        &&& self.cursor.wf()
        &&& self.cursor.tokbuf() == old.cursor.tokbuf()
        &&& self.cursor.interner() == old.cursor.interner()
        &&& old.idx() <= self.idx()
        &&& self.idx() <= self.toks().len()
    }

    /// Consumes and discards the run of tokens of class `C` at the cursor.
    fn discard<C: TokClass>(&mut self)
        requires
            old(self).cursor.wf(),
        ensures
            final(self).moved_on(old(self)),
            final(self).idx() == final(self).toks().len() || !C::spec_matches(
                final(self).toks()[final(self).idx()],
            ),
            final(self).idx() == skip_class::<C>(old(self).toks(), old(self).idx()),
    {
        proof {
            self.cursor.lemma_index_bounded();
        }
        while self.cursor.match_view::<C>().is_some()
            invariant
                self.moved_on(old(self)),
                0 <= self.idx(),
                skip_class::<C>(self.toks(), self.idx()) == skip_class::<C>(old(self).toks(), old(self).idx()),
            decreases self.toks().len() - self.idx(),
        {
            let ghost i = self.idx();
            let ghost t = self.toks();
            proof {
                assert(skip_class::<C>(t, i) == skip_class::<C>(t, i + 1));
            }
            self.cursor.forward();
        }
    }

    /// Discards formatting; then, if the next token is of class `C`, consumes it and returns a
    /// reference to it.
    fn consume_ref<C: TokClass>(&mut self) -> (r: Option<TokRef<C>>)
        requires
            old(self).cursor.wf(),
        ensures
            final(self).moved_on(old(self)),
            r matches Some(tr) ==> tr.names(final(self).cursor.tokbuf(), final(self).cursor.interner().strs())
                && final(self).idx() > old(self).idx(),
            r is None ==> (final(self).idx() == final(self).toks().len() || !C::spec_matches(
                final(self).toks()[final(self).idx()],
            )),
            r is Some <==> expect_spec::<C>(old(self).toks(), old(self).idx()) is Ok,
            expect_spec::<C>(old(self).toks(), old(self).idx()) matches Ok(e) ==> final(self).idx() == e,
            expect_spec::<C>(old(self).toks(), old(self).idx()) matches Err(f) ==> final(self).idx() == f,
            r matches Some(tr) ==> ref_pos(tr) == final(self).cursor.tokbuf().pos_of(final(self).idx() - 1),
    {
        proof {
            self.cursor.lemma_index_bounded();
            lemma_skip_class::<Formatting>(self.toks(), self.idx());
        }
        self.discard::<Formatting>();
        proof {
            self.cursor.lemma_key_pos();
        }
        let tokref = self.cursor.match_ref::<C>();
        match tokref {
            Some(tr) => {
                self.cursor.forward();
                Some(tr)
            },
            None => None,
        }
    }

    /// Discards formatting; then returns the view of the next token if it is of class `C`,
    /// without consuming it.
    fn peek<C: TokClass>(&mut self) -> (r: Option<C::View<'a>>)
        requires
            old(self).cursor.wf(),
        ensures
            final(self).moved_on(old(self)),
            r is Some <==> (final(self).idx() < final(self).toks().len() && C::spec_matches(
                final(self).toks()[final(self).idx()],
            )),
            final(self).idx() == skip_fmt(old(self).toks(), old(self).idx()),
    {
        self.discard::<Formatting>();
        self.cursor.match_view::<C>()
    }

    /// Discards formatting; then returns the declarator that the next token is, if any.
    fn peek_declarator(&mut self) -> (r: Option<ItemDeclarator>)
        requires
            old(self).cursor.wf(),
        ensures
            final(self).moved_on(old(self)),
            r is Some <==> (final(self).idx() < final(self).toks().len()
                && ItemDeclarator::spec_matches(final(self).toks()[final(self).idx()])),
            r matches Some(d) ==> d == spec_declarator(final(self).toks()[final(self).idx()]),
            final(self).idx() == skip_fmt(old(self).toks(), old(self).idx()),
    {
        self.discard::<Formatting>();
        match self.cursor.read() {
            Some(t) => declarator_of(&t),
            None => None,
        }
    }

    /// Consumes the next token, which must be of class `C`, and returns a reference to it.
    /// Formatting is not skipped: this claims the token that a dispatcher has just peeked.
    fn assert_ref<C: TokClass>(&mut self) -> (r: TokRef<C>)
        requires
            old(self).cursor.wf(),
            old(self).idx() < old(self).toks().len(),
            C::spec_matches(old(self).toks()[old(self).idx()]),
        ensures
            final(self).moved_on(old(self)),
            final(self).idx() == old(self).idx() + 1,
            r.names(final(self).cursor.tokbuf(), final(self).cursor.interner().strs()),
            ref_pos(r) == old(self).cursor.tokbuf().pos_of(old(self).idx()),
    {
        proof {
            self.cursor.lemma_index_bounded();
            self.cursor.lemma_key_pos();
        }
        let tokref = self.cursor.match_ref::<C>();
        let tr = tokref.unwrap();
        self.cursor.forward();
        tr
    }

    /// Consumes and discards the tokens up to, not including, the next one of class `C`.
    fn sync<C: TokClass>(&mut self)
        requires
            old(self).cursor.wf(),
        ensures
            final(self).moved_on(old(self)),
            final(self).idx() == final(self).toks().len() || C::spec_matches(
                final(self).toks()[final(self).idx()],
            ),
            final(self).idx() == sync_spec::<C>(old(self).toks(), old(self).idx()),
    {
        proof {
            self.cursor.lemma_index_bounded();
        }
        while self.cursor.has_next()
            invariant
                self.moved_on(old(self)),
                sync_spec::<C>(self.toks(), self.idx()) == sync_spec::<C>(old(self).toks(), old(self).idx()),
            decreases self.toks().len() - self.idx(),
        {
            let v = self.cursor.match_view::<C>();
            if v.is_some() {
                return;
            }
            let ghost i = self.idx();
            let ghost t = self.toks();
            proof {
                self.cursor.lemma_index_bounded();
                assert(sync_spec::<C>(t, i) == sync_spec::<C>(t, i + 1));
            }
            self.cursor.forward();
        }
    }
}

// -- Support -------------------------------------------------------------------------------------

/// Signals that the parser cannot go on locally. Whoever makes one has pushed a diagnostic;
/// whoever receives one may rely on that.
struct ParsePanic;

type ParseResult<T> = Result<T, ParsePanic>;

/// Every diagnostic is about the given source unit.
pub open spec fn diags_about(diags: Seq<AnyDiagnostic>, source_unit: SourceUnitId) -> bool {
    forall|i: int| 0 <= i < diags.len() ==> match #[trigger] diags[i] {
        AnyDiagnostic::MissingTok(m) => m.source_unit == source_unit,
    }
}

/// The parser's state: the token stream, the arenas, and the diagnostics pushed so far.
struct ParseContext<'a> {
    stream: TokStream<'a>,
    ast_mem: AstArena,
    source_unit: SourceUnitId,
    diagnostics: Vec<AnyDiagnostic>,
}

impl<'a> ParseContext<'a> {
    spec fn tb(&self) -> &'a TokBuf {
        self.stream.cursor.tokbuf()
    }

    spec fn strs(&self) -> Map<StrListKey, Seq<u8>> {
        self.stream.cursor.interner().strs()
    }

    /// The step ended at token `e` without a diagnostic.
    spec fn ended_at(&self, old: &ParseContext<'a>, e: int) -> bool {
        self.stream.idx() == e && self.diagnostics@ == old.diagnostics@
    }

    /// The step failed at token `f`: the cursor stands there and one missing-token report for
    /// it was pushed.
    spec fn failed_at(&self, old: &ParseContext<'a>, f: int) -> bool {
        &&& self.stream.idx() == f
        &&& self.diagnostics@.len() == old.diagnostics@.len() + 1
        &&& missing_at(self.diagnostics@.last(), old.source_unit, old.tb(), f)
    }

    spec fn remaining(&self) -> int {
        self.stream.toks().len() - self.stream.idx()
    }

    /// Each arena has room for one node per token, and holds no more nodes than tokens have
    /// been consumed.
    spec fn wf(&self) -> bool {
        let n = self.stream.toks().len();
        let i = self.stream.idx();
        &&& self.stream.cursor.wf()
        &&& 0 <= i <= n
        &&& n < u32::MAX
        &&& self.ast_mem.items.capacity() == n
        &&& self.ast_mem.parameters.capacity() == n
        &&& self.ast_mem.type_arguments.capacity() == n
        &&& self.ast_mem.items@.len() <= i
        &&& self.ast_mem.parameters@.len() <= i
        &&& self.ast_mem.type_arguments@.len() <= i
        &&& diags_about(self.diagnostics@, self.source_unit)
        &&& forall|k: int| 0 <= k < self.ast_mem.items@.len() ==> (#[trigger] self.ast_mem.items@[k]).value.refs_ok(self.tb(), self.strs())
        &&& forall|k: int| 0 <= k < self.ast_mem.parameters@.len() ==> (#[trigger] self.ast_mem.parameters@[k]).value.refs_ok(self.tb(), self.strs())
        &&& forall|k: int| 0 <= k < self.ast_mem.type_arguments@.len() ==> (#[trigger] self.ast_mem.type_arguments@[k]).value.refs_ok(self.tb(), self.strs())
    }

    /// What every parsing step keeps: the stream only moves on, arenas and diagnostics only
    /// grow, and nodes already stored stay as they are.
    spec fn kept(&self, old: &ParseContext<'a>) -> bool {
        &&& self.wf()
        &&& self.stream.moved_on(&old.stream)
        &&& self.source_unit == old.source_unit
        &&& old.diagnostics@.len() <= self.diagnostics@.len()
        &&& forall|k: int| 0 <= k < old.diagnostics@.len() ==> #[trigger] self.diagnostics@[k] == old.diagnostics@[k]
        &&& self.ast_mem.items@ == old.ast_mem.items@
        &&& old.ast_mem.parameters@.len() <= self.ast_mem.parameters@.len()
        &&& forall|k: int| 0 <= k < old.ast_mem.parameters@.len() ==> #[trigger] self.ast_mem.parameters@[k] == old.ast_mem.parameters@[k]
        &&& old.ast_mem.type_arguments@.len() <= self.ast_mem.type_arguments@.len()
        &&& forall|k: int| 0 <= k < old.ast_mem.type_arguments@.len() ==> #[trigger] self.ast_mem.type_arguments@[k] == old.ast_mem.type_arguments@[k]
    }

    /// Consumes a token of class `C`, after formatting; if there is none, reports it as
    /// missing and panics.
    fn expect_ref<C: TokClass>(&mut self) -> (r: ParseResult<TokRef<C>>)
        requires
            old(self).wf(),
        ensures
            final(self).kept(old(self)),
            final(self).ast_mem == old(self).ast_mem,
            r is Ok ==> final(self).stream.idx() > old(self).stream.idx(),
            r is Err ==> final(self).diagnostics@.len() > old(self).diagnostics@.len(),
            r is Err ==> final(self).diagnostics@.len() == old(self).diagnostics@.len() + 1,
            r is Ok ==> final(self).diagnostics@ == old(self).diagnostics@,
            r matches Ok(t) ==> t.names(final(self).tb(), final(self).strs()),
            r matches Ok(t) ==> ref_pos(t) == final(self).tb().pos_of(final(self).stream.idx() - 1),
            match expect_spec::<C>(old(self).stream.toks(), old(self).stream.idx()) {
                Ok(e) => r is Ok && final(self).ended_at(old(self), e),
                Err(f) => r is Err && final(self).failed_at(old(self), f),
            },
    {
        if let Some(tokref) = self.stream.consume_ref::<C>() {
            return Ok(tokref);
        }
        proof {
            self.stream.cursor.lemma_key_pos();
        }
        let diagnostic = MissingTok::new(self.source_unit, self.stream.cursor.at());
        self.diagnostics.push(AnyDiagnostic::MissingTok(diagnostic));
        Err(ParsePanic)
    }
}

/// Keeping is transitive.
proof fn lemma_kept_trans<'a>(a: &ParseContext<'a>, b: &ParseContext<'a>, c: &ParseContext<'a>)
    requires
        b.kept(a),
        c.kept(b),
    ensures
        c.kept(a),
{
    assert forall|k: int| 0 <= k < a.diagnostics@.len() implies #[trigger] c.diagnostics@[k] == a.diagnostics@[k] by {
        assert(b.diagnostics@[k] == a.diagnostics@[k]);
    }
    assert forall|k: int| 0 <= k < a.ast_mem.parameters@.len() implies #[trigger] c.ast_mem.parameters@[k] == a.ast_mem.parameters@[k] by {
        assert(b.ast_mem.parameters@[k] == a.ast_mem.parameters@[k]);
    }
    assert forall|k: int| 0 <= k < a.ast_mem.type_arguments@.len() implies #[trigger] c.ast_mem.type_arguments@[k] == a.ast_mem.type_arguments@[k] by {
        assert(b.ast_mem.type_arguments@[k] == a.ast_mem.type_arguments@[k]);
    }
}

// -- Parser --------------------------------------------------------------------------------------

impl<'a> ParseContext<'a> {
    /// Type = Ident TypeArguments?
    fn parse_type(&mut self) -> (r: ParseResult<ast::Type>)
        requires
            old(self).wf(),
        ensures
            final(self).kept(old(self)),
            r is Ok ==> final(self).stream.idx() > old(self).stream.idx(),
            r is Ok ==> final(self).ast_mem.type_arguments@.len() + 1 <= old(
                self,
            ).ast_mem.type_arguments@.len() + final(self).stream.idx() - old(self).stream.idx(),
            r is Err ==> final(self).diagnostics@.len() == old(self).diagnostics@.len() + 1,
            r is Ok ==> final(self).diagnostics@ == old(self).diagnostics@,
            final(self).ast_mem.parameters@ == old(self).ast_mem.parameters@,
            r matches Ok(t) ==> t.refs_ok(final(self).tb(), final(self).strs()),
            match type_spec(old(self).stream.toks(), old(self).stream.idx()) {
                Ok(e) => r is Ok && final(self).ended_at(old(self), e),
                Err(f) => r is Err && final(self).failed_at(old(self), f),
            },
            r matches Ok(ty) ==> type_at(ty, old(self).tb(), old(self).stream.toks(), old(self).stream.idx()),
        decreases old(self).remaining(), 1nat,
    {
        let ghost t = self.stream.toks();
        let ident = self.expect_ref::<class::Ident>()?;
        let mut arguments: Option<ast::TypeArguments> = None;
        if self.stream.peek::<delims::LessThan>().is_some() {
            let args = self.parse_type_arguments()?;
            arguments = Some(args);
        }
        Ok(ast::Type::NamedType(ast::NamedType { ident, arguments }))
    }

    /// TypeArguments = `<` ( Type ( `,` Type )* `,`? )? `>`; the next token is the `<`.
    #[verifier::rlimit(30)]
    fn parse_type_arguments(&mut self) -> (r: ParseResult<ast::TypeArguments>)
        requires
            old(self).wf(),
            old(self).stream.idx() < old(self).stream.toks().len(),
            old(self).stream.toks()[old(self).stream.idx()] == TokModel::Static(StaticTok::LessThan),
        ensures
            final(self).kept(old(self)),
            r is Ok ==> final(self).stream.idx() > old(self).stream.idx(),
            r is Ok ==> final(self).ast_mem.type_arguments@.len() + 1 <= old(
                self,
            ).ast_mem.type_arguments@.len() + final(self).stream.idx() - old(self).stream.idx(),
            r is Err ==> final(self).diagnostics@.len() == old(self).diagnostics@.len() + 1,
            r is Ok ==> final(self).diagnostics@ == old(self).diagnostics@,
            final(self).ast_mem.parameters@ == old(self).ast_mem.parameters@,
            r matches Ok(a) ==> a.open_angle.names(final(self).tb(), final(self).strs())
                && a.close_angle.names(final(self).tb(), final(self).strs()),
            match targs_spec(old(self).stream.toks(), old(self).stream.idx()) {
                Ok(p) => {
                    &&& r is Ok
                    &&& final(self).ended_at(old(self), p.0)
                    &&& (r->Ok_0.first is None) <==> p.1.len() == 0
                    &&& ref_pos(r->Ok_0.open_angle) == old(self).tb().pos_of(old(self).stream.idx())
                    &&& ref_pos(r->Ok_0.close_angle) == old(self).tb().pos_of(p.0 - 1)
                    &&& exists|ks: Seq<u32>| {
                        &&& ks.len() == p.1.len()
                        &&& ll_linked(final(self).ast_mem.type_arguments@, r->Ok_0.first, ks)
                        &&& forall|m: int| 0 <= m < ks.len() ==> targ_at(
                            (#[trigger] final(self).ast_mem.type_arguments@[ks[m] - 1]).value,
                            old(self).tb(),
                            old(self).stream.toks(),
                            p.1[m],
                        )
                    }
                },
                Err(f) => r is Err && final(self).failed_at(old(self), f),
            },
        decreases old(self).remaining(), 0nat,
    {
        let ghost t = self.stream.toks();
        let ghost target = targs_spec(t, old(self).stream.idx());
        let open_angle = self.stream.assert_ref::<delims::LessThan>();
        let mut first: Option<AstRef<ast::TypeArgumentNode>> = None;
        let mut tail: Option<AstRef<ast::TypeArgumentNode>> = None;
        let ghost mut keys: Seq<u32> = Seq::empty();
        let ghost mut acc: Seq<int> = Seq::empty();
        loop
            invariant_except_break
                targs_loop(t, self.stream.idx(), acc) == target,
            invariant
                self.kept(old(self)),
                self.stream.toks() == t,
                t == old(self).stream.toks(),
                target == targs_spec(t, old(self).stream.idx()),
                self.stream.idx() > old(self).stream.idx(),
                ll_linked(self.ast_mem.type_arguments@, first, keys),
                acc.len() == keys.len(),
                forall|m: int| 0 <= m < keys.len() ==> targ_at((#[trigger] self.ast_mem.type_arguments@[keys[m] - 1]).value, self.tb(), t, acc[m]),
                (first is Some) <==> keys.len() > 0,
                (tail is Some) <==> keys.len() > 0,
                link_key(tail) == if keys.len() == 0 { 0 } else { keys.last() },
                forall|i: int| 0 <= i < keys.len() ==> #[trigger] keys[i] > old(self).ast_mem.type_arguments@.len(),
                self.ast_mem.type_arguments@.len() + 1 <= old(self).ast_mem.type_arguments@.len()
                    + self.stream.idx() - old(self).stream.idx(),
                self.ast_mem.parameters@ == old(self).ast_mem.parameters@,
                self.diagnostics@ == old(self).diagnostics@,
            ensures
                close_with::<delims::GreaterThan>(t, self.stream.idx(), acc) == target,
            decreases self.remaining(),
        {
            let ghost k = self.stream.idx();
            if !self.stream.cursor.has_next() {
                break;
            }
            if self.stream.peek::<delims::GreaterThan>().is_some() {
                proof {
                    lemma_skip_class::<Formatting>(t, k);
                }
                break;
            }
            let ghost before = *self;
            proof {
                lemma_skip_class::<Formatting>(t, k);
                assert(self.remaining() < old(self).remaining());
            }
            let ty = match self.parse_type() {
                Ok(ty) => ty,
                Err(e) => {
                    proof {
                        lemma_kept_trans(old(self), &before, self);
                        assert(target == Err::<(int, Seq<int>), int>(self.stream.idx()));
                    }
                    return Err(e);
                },
            };
            let comma = self.stream.consume_ref::<delims::Comma>();
            let ghost pre = self.ast_mem.type_arguments@;
            proof {
                lemma_ll_frame(before.ast_mem.type_arguments@, pre, first, keys);
            }
            extend_ll(
                &mut self.ast_mem.type_arguments,
                &mut first,
                &mut tail,
                ast::TypeArgument { ty, comma },
                Ghost(keys),
            );
            proof {
                keys = keys.push((pre.len() + 1) as u32);
                acc = acc.push(before.stream.idx());
                assert forall|m: int| 0 <= m < keys.len() implies targ_at((#[trigger] self.ast_mem.type_arguments@[keys[m] - 1]).value, self.tb(), t, acc[m]) by {
                    if m < keys.len() - 1 {
                        assert(1 <= keys[m] <= before.ast_mem.type_arguments@.len());
                        assert(pre[keys[m] - 1] == before.ast_mem.type_arguments@[keys[m] - 1]);
                        assert(self.ast_mem.type_arguments@[keys[m] - 1].value == pre[keys[m] - 1].value);
                    }
                }
                assert forall|k: int| 0 <= k < old(self).ast_mem.type_arguments@.len() implies #[trigger] self.ast_mem.type_arguments@[k] == old(self).ast_mem.type_arguments@[k] by {
                    assert(pre[k] == old(self).ast_mem.type_arguments@[k]);
                }
            }
            if comma.is_none() {
                break;
            }
        }
        let ghost end = *self;
        let close_angle = match self.expect_ref::<delims::GreaterThan>() {
            Ok(c) => c,
            Err(e) => {
                proof {
                    lemma_kept_trans(old(self), &end, self);
                }
                return Err(e);
            },
        };
        proof {
            lemma_kept_trans(old(self), &end, self);
            assert(ll_linked(self.ast_mem.type_arguments@, first, keys));
        }
        Ok(ast::TypeArguments { open_angle, first, close_angle })
    }
}

impl<'a> ParseContext<'a> {
    /// Parameters = `(` ( Parameter ( `,` Parameter )* `,`? )? `)`, where
    /// Parameter = Ident `:` Type.
    #[verifier::rlimit(30)]
    fn parse_parameters(&mut self) -> (r: ParseResult<ast::Parameters>)
        requires
            old(self).wf(),
        ensures
            final(self).kept(old(self)),
            r matches Ok(p) ==> p.refs_ok(final(self).tb(), final(self).strs()),
            r is Ok ==> final(self).stream.idx() > old(self).stream.idx(),
            r is Err ==> final(self).diagnostics@.len() == old(self).diagnostics@.len() + 1,
            r is Ok ==> final(self).diagnostics@ == old(self).diagnostics@,
            match params_spec(old(self).stream.toks(), old(self).stream.idx()) {
                Ok(p) => {
                    &&& r is Ok
                    &&& final(self).ended_at(old(self), p.0)
                    &&& (r->Ok_0.first is None) <==> p.1.len() == 0
                    &&& ref_pos(r->Ok_0.open_paren) == old(self).tb().pos_of(skip_fmt(old(self).stream.toks(), old(self).stream.idx()))
                    &&& ref_pos(r->Ok_0.close_paren) == old(self).tb().pos_of(p.0 - 1)
                    &&& exists|ks: Seq<u32>| {
                        &&& ks.len() == p.1.len()
                        &&& ll_linked(final(self).ast_mem.parameters@, r->Ok_0.first, ks)
                        &&& forall|m: int| 0 <= m < ks.len() ==> param_at(
                            (#[trigger] final(self).ast_mem.parameters@[ks[m] - 1]).value,
                            old(self).tb(),
                            old(self).stream.toks(),
                            p.1[m],
                        )
                    }
                },
                Err(f) => r is Err && final(self).failed_at(old(self), f),
            },
    {
        let ghost t = self.stream.toks();
        let ghost target = params_spec(t, old(self).stream.idx());
        let open_paren = self.expect_ref::<delims::OpenParen>()?;
        let mut first: Option<AstRef<ast::ParameterNode>> = None;
        let mut tail: Option<AstRef<ast::ParameterNode>> = None;
        let ghost mut keys: Seq<u32> = Seq::empty();
        let ghost mut acc: Seq<int> = Seq::empty();
        loop
            invariant_except_break
                params_loop(t, self.stream.idx(), acc) == target,
            invariant
                self.kept(old(self)),
                self.stream.toks() == t,
                t == old(self).stream.toks(),
                target == params_spec(t, old(self).stream.idx()),
                self.stream.idx() > old(self).stream.idx(),
                ll_linked(self.ast_mem.parameters@, first, keys),
                acc.len() == keys.len(),
                forall|m: int| 0 <= m < keys.len() ==> param_at((#[trigger] self.ast_mem.parameters@[keys[m] - 1]).value, self.tb(), t, acc[m]),
                (first is Some) <==> keys.len() > 0,
                (tail is Some) <==> keys.len() > 0,
                link_key(tail) == if keys.len() == 0 { 0 } else { keys.last() },
                forall|i: int| 0 <= i < keys.len() ==> #[trigger] keys[i] > old(self).ast_mem.parameters@.len(),
                self.diagnostics@ == old(self).diagnostics@,
            ensures
                close_with::<delims::CloseParen>(t, self.stream.idx(), acc) == target,
            decreases self.remaining(),
        {
            let ghost k = self.stream.idx();
            if !self.stream.cursor.has_next() {
                break;
            }
            if self.stream.peek::<delims::CloseParen>().is_some() {
                proof {
                    lemma_skip_class::<Formatting>(t, k);
                }
                break;
            }
            let ghost before = *self;
            proof {
                lemma_skip_class::<Formatting>(t, k);
                assert(before.stream.idx() == skip_fmt(t, k));
            }
            let ident = match self.expect_ref::<class::Ident>() {
                Ok(tr) => tr,
                Err(e) => {
                    proof {
                        lemma_kept_trans(old(self), &before, self);
                        assert(target == Err::<(int, Seq<int>), int>(self.stream.idx()));
                    }
                    return Err(e);
                },
            };
            let ghost s1 = *self;
            let colon = match self.expect_ref::<delims::Colon>() {
                Ok(tr) => tr,
                Err(e) => {
                    proof {
                        lemma_kept_trans(&before, &s1, self);
                        lemma_kept_trans(old(self), &before, self);
                        assert(target == Err::<(int, Seq<int>), int>(self.stream.idx()));
                    }
                    return Err(e);
                },
            };
            let ghost mid = *self;
            let ty = match self.parse_type() {
                Ok(ty) => ty,
                Err(e) => {
                    proof {
                        lemma_kept_trans(&s1, &mid, self);
                        lemma_kept_trans(&before, &s1, self);
                        lemma_kept_trans(old(self), &before, self);
                        assert(target == Err::<(int, Seq<int>), int>(self.stream.idx()));
                    }
                    return Err(e);
                },
            };
            let comma = self.stream.consume_ref::<delims::Comma>();
            let ghost pre = self.ast_mem.parameters@;
            proof {
                lemma_kept_trans(&s1, &mid, self);
                lemma_kept_trans(&before, &s1, self);
                lemma_ll_frame(before.ast_mem.parameters@, pre, first, keys);
            }
            extend_ll(
                &mut self.ast_mem.parameters,
                &mut first,
                &mut tail,
                ast::Parameter { ident, colon, ty, comma },
                Ghost(keys),
            );
            proof {
                keys = keys.push((pre.len() + 1) as u32);
                acc = acc.push(before.stream.idx());
                assert forall|m: int| 0 <= m < keys.len() implies param_at((#[trigger] self.ast_mem.parameters@[keys[m] - 1]).value, self.tb(), t, acc[m]) by {
                    if m < keys.len() - 1 {
                        assert(1 <= keys[m] <= before.ast_mem.parameters@.len());
                        assert(pre[keys[m] - 1] == before.ast_mem.parameters@[keys[m] - 1]);
                        assert(self.ast_mem.parameters@[keys[m] - 1].value == pre[keys[m] - 1].value);
                    }
                }
                assert forall|k: int| 0 <= k < old(self).ast_mem.parameters@.len() implies #[trigger] self.ast_mem.parameters@[k] == old(self).ast_mem.parameters@[k] by {
                    assert(pre[k] == old(self).ast_mem.parameters@[k]);
                }
            }
            if comma.is_none() {
                break;
            }
        }
        let ghost end = *self;
        let close_paren = match self.expect_ref::<delims::CloseParen>() {
            Ok(t) => t,
            Err(e) => {
                proof {
                    lemma_kept_trans(old(self), &end, self);
                }
                return Err(e);
            },
        };
        proof {
            lemma_kept_trans(old(self), &end, self);
            assert(ll_linked(self.ast_mem.parameters@, first, keys));
        }
        Ok(ast::Parameters { open_paren, close_paren, first })
    }

    /// ImperativeBlock = `{` `}`. Statements are not parsed yet, so a block must be empty.
    fn parse_imperative_block(&mut self) -> (r: ParseResult<ast::ImperativeBlock>)
        requires
            old(self).wf(),
        ensures
            final(self).kept(old(self)),
            r matches Ok(b) ==> b.refs_ok(final(self).tb(), final(self).strs()),
            r is Ok ==> final(self).stream.idx() > old(self).stream.idx(),
            r is Err ==> final(self).diagnostics@.len() == old(self).diagnostics@.len() + 1,
            r is Ok ==> final(self).diagnostics@ == old(self).diagnostics@,
            match block_spec(old(self).stream.toks(), old(self).stream.idx()) {
                Ok(e) => r is Ok && final(self).ended_at(old(self), e) && r->Ok_0.first is None,
                Err(f) => r is Err && final(self).failed_at(old(self), f),
            },
            r matches Ok(b) ==> ({
                let open = skip_fmt(old(self).stream.toks(), old(self).stream.idx());
                &&& ref_pos(b.open_curly) == old(self).tb().pos_of(open)
                &&& ref_pos(b.close_curly) == old(self).tb().pos_of(skip_fmt(old(self).stream.toks(), open + 1))
            }),
    {
        let open_curly = self.expect_ref::<delims::OpenCurly>()?;
        let ghost mid = *self;
        let close_curly = match self.expect_ref::<delims::CloseCurly>() {
            Ok(t) => t,
            Err(e) => {
                proof {
                    lemma_kept_trans(old(self), &mid, self);
                }
                return Err(e);
            },
        };
        proof {
            lemma_kept_trans(old(self), &mid, self);
        }
        Ok(ast::ImperativeBlock { open_curly, close_curly, first: None })
    }

    /// A line comment item; the next token is the comment.
    fn parse_line_comment(&mut self) -> (r: ParseResult<ast::LineComment>)
        requires
            old(self).wf(),
            old(self).stream.idx() < old(self).stream.toks().len(),
            old(self).stream.toks()[old(self).stream.idx()] is LineComment,
        ensures
            final(self).kept(old(self)),
            r is Ok,
            final(self).stream.idx() == old(self).stream.idx() + 1,
            r matches Ok(c) ==> c.tok.names(final(self).tb(), final(self).strs()),
            final(self).diagnostics@ == old(self).diagnostics@,
            final(self).ended_at(old(self), old(self).stream.idx() + 1),
            r matches Ok(c) ==> ref_pos(c.tok) == old(self).tb().pos_of(old(self).stream.idx()),
    {
        let tok = self.stream.assert_ref::<class::LineComment>();
        Ok(ast::LineComment { tok })
    }

    /// ProcDefinition = `proc` Ident Parameters `:` Type ImperativeBlock; the next token is the
    /// `proc`.
    #[verifier::rlimit(30)]
    fn parse_proc_def(&mut self) -> (r: ParseResult<ast::ProcDefinition>)
        requires
            old(self).wf(),
            old(self).stream.idx() < old(self).stream.toks().len(),
            old(self).stream.toks()[old(self).stream.idx()] == TokModel::Static(StaticTok::Proc),
        ensures
            final(self).kept(old(self)),
            r matches Ok(d) ==> d.refs_ok(final(self).tb(), final(self).strs()),
            final(self).stream.idx() > old(self).stream.idx(),
            r is Err ==> final(self).diagnostics@.len() == old(self).diagnostics@.len() + 1,
            r is Ok ==> final(self).diagnostics@ == old(self).diagnostics@,
            match proc_spec(old(self).stream.toks(), old(self).stream.idx()) {
                Ok(e) => r is Ok && final(self).ended_at(old(self), e),
                Err(f) => r is Err && final(self).failed_at(old(self), f),
            },
            r matches Ok(d) ==> item_at(ast::AnyTopLevelItem::Proc(d), old(self).tb(), old(self).stream.toks(), old(self).stream.idx()),
    {
        let proc_keyword = self.stream.assert_ref::<delims::Proc>();
        let ghost s1 = *self;
        let ident = match self.expect_ref::<class::Ident>() {
            Ok(t) => t,
            Err(e) => {
                proof {
                    lemma_kept_trans(old(self), &s1, self);
                }
                return Err(e);
            },
        };
        let ghost s2 = *self;
        proof {
            lemma_kept_trans(old(self), &s1, &s2);
        }
        let parameters = match self.parse_parameters() {
            Ok(p) => p,
            Err(e) => {
                proof {
                    lemma_kept_trans(old(self), &s2, self);
                }
                return Err(e);
            },
        };
        let ghost s3 = *self;
        proof {
            lemma_kept_trans(old(self), &s2, &s3);
        }
        let return_type_separator = match self.expect_ref::<delims::Colon>() {
            Ok(t) => t,
            Err(e) => {
                proof {
                    lemma_kept_trans(old(self), &s3, self);
                }
                return Err(e);
            },
        };
        let ghost s4 = *self;
        proof {
            lemma_kept_trans(old(self), &s3, &s4);
        }
        let return_type = match self.parse_type() {
            Ok(t) => t,
            Err(e) => {
                proof {
                    lemma_kept_trans(old(self), &s4, self);
                }
                return Err(e);
            },
        };
        let ghost s5 = *self;
        proof {
            lemma_kept_trans(old(self), &s4, &s5);
        }
        let body = match self.parse_imperative_block() {
            Ok(b) => b,
            Err(e) => {
                proof {
                    lemma_kept_trans(old(self), &s5, self);
                }
                return Err(e);
            },
        };
        proof {
            lemma_kept_trans(old(self), &s5, self);
        }
        Ok(
            ast::ProcDefinition {
                proc_keyword,
                ident,
                parameters,
                return_type_separator,
                return_type,
                body,
            },
        )
    }

    /// Parses the top-level item that `declarator`, the next token, begins.
    fn parse_tl_item(&mut self, declarator: ItemDeclarator) -> (r: ParseResult<ast::AnyTopLevelItem>)
        requires
            old(self).wf(),
            old(self).stream.idx() < old(self).stream.toks().len(),
            ItemDeclarator::spec_matches(old(self).stream.toks()[old(self).stream.idx()]),
            declarator == spec_declarator(old(self).stream.toks()[old(self).stream.idx()]),
        ensures
            final(self).kept(old(self)),
            r matches Ok(i) ==> i.refs_ok(final(self).tb(), final(self).strs()),
            final(self).stream.idx() > old(self).stream.idx(),
            r is Err ==> final(self).diagnostics@.len() == old(self).diagnostics@.len() + 1,
            r is Ok ==> final(self).diagnostics@ == old(self).diagnostics@,
            match item_spec(old(self).stream.toks(), old(self).stream.idx()) {
                Ok(e) => r is Ok && final(self).ended_at(old(self), e),
                Err(f) => r is Err && final(self).failed_at(old(self), f),
            },
            r matches Ok(item) ==> item_at(item, old(self).tb(), old(self).stream.toks(), old(self).stream.idx()),
    {
        match declarator {
            ItemDeclarator::Proc => {
                let def = self.parse_proc_def()?;
                Ok(ast::AnyTopLevelItem::Proc(def))
            },
            ItemDeclarator::LineComment => {
                let lc = self.parse_line_comment()?;
                Ok(ast::AnyTopLevelItem::LineComment(lc))
            },
            _ => {
                // Structs and enums have no grammar yet: the keyword is reported where the
                // item's name would follow.
                self.stream.assert_ref::<ItemDeclarator>();
                proof {
                    self.stream.cursor.lemma_key_pos();
                }
                let diagnostic = MissingTok::new(self.source_unit, self.stream.cursor.at());
                self.diagnostics.push(AnyDiagnostic::MissingTok(diagnostic));
                Err(ParsePanic)
            },
        }
    }

    /// A source unit is a list of top-level items, each beginning with an item declarator.
    #[verifier::rlimit(100)]
    fn parse_root(&mut self) -> (r: ast::Root)
        requires
            old(self).wf(),
            old(self).ast_mem.items@.len() == 0,
        ensures
            final(self).wf(),
            final(self).stream.moved_on(&old(self).stream),
            final(self).stream.idx() == final(self).stream.toks().len(),
            final(self).source_unit == old(self).source_unit,
            old(self).diagnostics@.len() <= final(self).diagnostics@.len(),
            forall|k: int| 0 <= k < old(self).diagnostics@.len() ==> #[trigger] final(self).diagnostics@[k] == old(self).diagnostics@[k],
            final(self).diagnostics@.len() - old(self).diagnostics@.len() <= final(self).stream.idx()
                - old(self).stream.idx(),
            ({
                let spec = root_spec(old(self).stream.toks(), old(self).stream.idx());
                &&& (r.ll_head is None) <==> spec.0.len() == 0
                &&& final(self).diagnostics@.len() == old(self).diagnostics@.len() + spec.1.len()
                &&& forall|m: int| 0 <= m < spec.1.len() ==> missing_at(
                    #[trigger] final(self).diagnostics@[old(self).diagnostics@.len() + m],
                    old(self).source_unit,
                    old(self).tb(),
                    spec.1[m],
                )
                &&& exists|keys: Seq<u32>| {
                    &&& ll_linked(final(self).ast_mem.items@, r.ll_head, keys)
                    &&& keys.len() == spec.0.len()
                    &&& forall|m: int| 0 <= m < keys.len() ==> item_at(
                        (#[trigger] final(self).ast_mem.items@[keys[m] - 1]).value,
                        old(self).tb(),
                        old(self).stream.toks(),
                        spec.0[m],
                    )
                }
            }),
    {
        let ghost t = self.stream.toks();
        let ghost target = root_spec(t, old(self).stream.idx());
        let ghost n0 = old(self).diagnostics@.len();
        let ghost mut isf: Seq<int> = Seq::empty();
        let ghost mut dsf: Seq<int> = Seq::empty();
        let mut ll_head: Option<AstRef<ast::TopLevelItemNode>> = None;
        let mut tail: Option<AstRef<ast::TopLevelItemNode>> = None;
        let ghost mut keys: Seq<u32> = Seq::empty();
        proof {
            self.stream.cursor.lemma_index_bounded();
        }
        while self.stream.cursor.has_next()
            invariant
                self.wf(),
                self.stream.moved_on(&old(self).stream),
                0 <= self.stream.idx(),
                self.source_unit == old(self).source_unit,
                t == old(self).stream.toks(),
                self.stream.toks() == t,
                self.tb() == old(self).tb(),
                target == root_spec(t, old(self).stream.idx()),
                n0 == old(self).diagnostics@.len(),
                target.0 == isf + root_spec(t, self.stream.idx()).0,
                target.1 == dsf + root_spec(t, self.stream.idx()).1,
                old(self).diagnostics@.len() <= self.diagnostics@.len(),
                forall|k: int| 0 <= k < old(self).diagnostics@.len() ==> #[trigger] self.diagnostics@[k] == old(self).diagnostics@[k],
                self.diagnostics@.len() == n0 + dsf.len(),
                forall|m: int| 0 <= m < dsf.len() ==> missing_at(#[trigger] self.diagnostics@[n0 + m], self.source_unit, self.tb(), dsf[m]),
                ll_linked(self.ast_mem.items@, ll_head, keys),
                keys.len() == isf.len(),
                forall|m: int| 0 <= m < keys.len() ==> item_at((#[trigger] self.ast_mem.items@[keys[m] - 1]).value, self.tb(), t, isf[m]),
                self.diagnostics@.len() - old(self).diagnostics@.len() <= self.stream.idx() - old(self).stream.idx(),
                (tail is Some) <==> keys.len() > 0,
                (ll_head is Some) <==> keys.len() > 0,
                link_key(tail) == if keys.len() == 0 { 0 } else { keys.last() },
            decreases self.remaining(),
        {
            let ghost i = self.stream.idx();
            let ghost rest = root_spec(t, i);
            proof {
                lemma_skip_class::<Formatting>(t, i);
            }
            let declarator = match self.stream.peek_declarator() {
                Some(d) => d,
                None => {
                    let ghost j = self.stream.idx();
                    proof {
                        self.stream.cursor.lemma_key_pos();
                    }
                    let diagnostic = MissingTok::new(self.source_unit, self.stream.cursor.at());
                    self.diagnostics.push(AnyDiagnostic::MissingTok(diagnostic));
                    self.stream.sync::<ItemDeclarator>();
                    proof {
                        lemma_sync::<ItemDeclarator>(t, j);
                        if j < t.len() {
                            lemma_sync::<ItemDeclarator>(t, j + 1);
                        }
                        let st = self.stream.idx();
                        assert(i < st <= t.len());
                        assert(rest == (root_spec(t, st).0, seq![j] + root_spec(t, st).1));
                        assert(target.1 =~= dsf.push(j) + root_spec(t, st).1);
                        dsf = dsf.push(j);
                        assert forall|m: int| 0 <= m < dsf.len() implies missing_at(#[trigger] self.diagnostics@[n0 + m], self.source_unit, self.tb(), dsf[m]) by {
                        }
                    }
                    continue;
                },
            };
            let ghost j = self.stream.idx();
            let ghost before = *self;
            match self.parse_tl_item(declarator) {
                Ok(tl_item) => {
                    let ghost pre = self.ast_mem.items@;
                    extend_ll(&mut self.ast_mem.items, &mut ll_head, &mut tail, tl_item, Ghost(keys));
                    proof {
                        let e = self.stream.idx();
                        self.stream.cursor.lemma_index_bounded();
                        assert(rest == (seq![j] + root_spec(t, e).0, root_spec(t, e).1));
                        assert(target.0 =~= isf.push(j) + root_spec(t, e).0);
                        keys = keys.push((pre.len() + 1) as u32);
                        isf = isf.push(j);
                        assert forall|m: int| 0 <= m < keys.len() implies item_at((#[trigger] self.ast_mem.items@[keys[m] - 1]).value, self.tb(), t, isf[m]) by {
                            if m < keys.len() - 1 {
                                assert(1 <= keys[m] <= pre.len());
                                assert(self.ast_mem.items@[keys[m] - 1].value == pre[keys[m] - 1].value);
                            }
                        }
                    }
                },
                Err(_) => {
                    // The panic was reported where it arose.
                    let ghost f = self.stream.idx();
                    self.stream.sync::<ItemDeclarator>();
                    proof {
                        self.stream.cursor.lemma_index_bounded();
                        lemma_sync::<ItemDeclarator>(t, f);
                        let st = self.stream.idx();
                        assert(rest == (root_spec(t, st).0, seq![f] + root_spec(t, st).1));
                        assert(target.1 =~= dsf.push(f) + root_spec(t, st).1);
                        dsf = dsf.push(f);
                        assert forall|m: int| 0 <= m < dsf.len() implies missing_at(#[trigger] self.diagnostics@[n0 + m], self.source_unit, self.tb(), dsf[m]) by {
                            if m < dsf.len() - 1 {
                                assert(self.diagnostics@[n0 + m] == before.diagnostics@[n0 + m]);
                            }
                        }
                    }
                },
            }
        }
        proof {
            self.stream.cursor.lemma_index_bounded();
            let e = self.stream.idx();
            assert(root_spec(t, e).0 =~= Seq::<int>::empty());
            assert(target.0 =~= isf);
            assert(target.1 =~= dsf);
        }
        ast::Root { ll_head }
    }
}

/// Parses the tokens of `tokbuf` into an AST, appending to `diagnostics` what it could not
/// parse. After an error it resumes at the next item declarator.
#[verifier::rlimit(30)]
pub fn parse(
    tokbuf: &TokBuf,
    interner: &StrInterner,
    source_unit: SourceUnitId,
    diagnostics: &mut Vec<AnyDiagnostic>,
) -> (r: Ast)
    requires
        tokbuf.wf(interner.strs()),
        interner.wf(),
        tokbuf.toks().len() < u32::MAX,
    ensures
        old(diagnostics)@.len() <= final(diagnostics)@.len(),
        forall|k: int| 0 <= k < old(diagnostics)@.len() ==> #[trigger] final(diagnostics)@[k] == old(diagnostics)@[k],
        final(diagnostics)@.len() <= old(diagnostics)@.len() + tokbuf.toks().len(),
        ({
            let spec = root_spec(tokbuf.toks(), 0);
            &&& final(diagnostics)@.len() == old(diagnostics)@.len() + spec.1.len()
            &&& forall|m: int| 0 <= m < spec.1.len() ==> missing_at(
                #[trigger] final(diagnostics)@[old(diagnostics)@.len() + m],
                source_unit,
                tokbuf,
                spec.1[m],
            )
            &&& (r.root.ll_head is None) <==> spec.0.len() == 0
            &&& exists|keys: Seq<u32>| {
                &&& ll_linked(r.mem.items@, r.root.ll_head, keys)
                &&& keys.len() == spec.0.len()
                &&& forall|m: int| 0 <= m < keys.len() ==> item_at(
                    (#[trigger] r.mem.items@[keys[m] - 1]).value,
                    tokbuf,
                    tokbuf.toks(),
                    spec.0[m],
                )
            }
        }),
        r.refs_ok(tokbuf, interner.strs()),
{
    let tok_count = tokbuf.iter(interner).len();
    let stream = TokStream::new(tokbuf, interner);
    let mem = AstArena::new(calc_ast_size_upperbound(tok_count));
    let mut ctx = ParseContext { stream, ast_mem: mem, source_unit, diagnostics: Vec::new() };
    let ghost c0 = ctx;
    let root = ctx.parse_root();
    let ghost found = ctx.diagnostics@;
    proof {
        assert(c0.stream.toks() == tokbuf.toks());
        assert(c0.stream.idx() == 0);
        assert(c0.tb() == tokbuf);
        assert(c0.diagnostics@.len() == 0);
    }
    let ghost before = diagnostics@;
    diagnostics.append(&mut ctx.diagnostics);
    proof {
        assert(diagnostics@.subrange(before.len() as int, diagnostics@.len() as int) =~= found);
    }
    let ghost spec = root_spec(tokbuf.toks(), 0);
    let ghost keys = choose|keys: Seq<u32>| {
        &&& ll_linked(ctx.ast_mem.items@, root.ll_head, keys)
        &&& keys.len() == spec.0.len()
        &&& forall|m: int| 0 <= m < keys.len() ==> item_at(
            (#[trigger] ctx.ast_mem.items@[keys[m] - 1]).value,
            tokbuf,
            tokbuf.toks(),
            spec.0[m],
        )
    };
    let mut mem = ctx.ast_mem;
    mem.shrink_to_fit();
    let r = Ast { mem, root };
    proof {
        assert(ll_linked(r.mem.items@, r.root.ll_head, keys));
        assert forall|m: int| 0 <= m < spec.1.len() implies missing_at(
            #[trigger] diagnostics@[before.len() + m],
            source_unit,
            tokbuf,
            spec.1[m],
        ) by {
            assert(diagnostics@[before.len() + m] == found[m]);
            assert(missing_at(found[0 + m], c0.source_unit, c0.tb(), spec.1[m]));
        }
    }
    r
}

} // verus!
