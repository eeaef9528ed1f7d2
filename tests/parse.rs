use libcyan::diagnostic::{AnyDiagnostic, DiagnosticSeverity, DiagnosticViewElement};
use libcyan::parse::ast::{AnyTopLevelItem, Ast, Type};
use libcyan::parse::parse::parse;
use libcyan::tok::lex::lex;
use libcyan::util::str_interner::StrInterner;

fn parse_source(source: &[u8]) -> (Ast, Vec<AnyDiagnostic>) {
    let mut interner = StrInterner::default();
    let tokbuf = lex(source, &mut interner);
    let mut diagnostics: Vec<AnyDiagnostic> = Vec::new();
    let ast = parse(&tokbuf, &interner, 0, &mut diagnostics);
    (ast, diagnostics)
}

fn item_kinds(ast: &Ast) -> Vec<&'static str> {
    let mut kinds = Vec::new();
    let mut next = ast.root.ll_head;
    while let Some(handle) = next {
        let node = ast.mem.items.get(handle);
        kinds.push(match node.value {
            AnyTopLevelItem::Proc(_) => "proc",
            AnyTopLevelItem::LineComment(_) => "comment",
        });
        next = node.next;
    }
    kinds
}

#[test]
fn parse_smoke_test() {
    const SOURCE_TEXT: &'static str = "\
        proc main(): int {    \n\
            \n\
        }\
    ";

    let mut string_interner = StrInterner::default();
    let tokbuf = lex(SOURCE_TEXT.as_bytes(), &mut string_interner);
    let mut diagnostics: Vec<AnyDiagnostic> = Vec::new();
    let _ast = parse(&tokbuf, &string_interner, 0, &mut diagnostics);
    assert!(diagnostics.is_empty());
}

#[test]
fn proc_with_empty_parameters_and_body() {
    let (ast, diagnostics) = parse_source(b"proc main(): int {\n    \n}");
    assert!(diagnostics.is_empty());
    assert_eq!(item_kinds(&ast), vec!["proc"]);
    let node = ast.mem.items.get(ast.root.ll_head.unwrap());
    let AnyTopLevelItem::Proc(def) = &node.value else { panic!(); };
    assert!(def.parameters.first.is_none());
    assert!(def.body.first.is_none());
    let Type::NamedType(named) = &def.return_type;
    assert!(named.arguments.is_none());
}

#[test]
fn parameters_and_type_arguments_are_listed() {
    let (ast, diagnostics) = parse_source(b"proc f(a: x, b: map<k, list<v>>,): int {}");
    assert!(diagnostics.is_empty());
    let node = ast.mem.items.get(ast.root.ll_head.unwrap());
    let AnyTopLevelItem::Proc(def) = &node.value else { panic!(); };
    let first = ast.mem.parameters.get(def.parameters.first.unwrap());
    assert!(first.value.comma.is_some());
    let second = ast.mem.parameters.get(first.next.unwrap());
    assert!(second.value.comma.is_some());
    assert!(second.next.is_none());
    let Type::NamedType(map_type) = &second.value.ty;
    let args = map_type.arguments.as_ref().unwrap();
    let k = ast.mem.type_arguments.get(args.first.unwrap());
    assert!(k.value.comma.is_some());
    let list = ast.mem.type_arguments.get(k.next.unwrap());
    assert!(list.next.is_none());
    let Type::NamedType(list_type) = &list.value.ty;
    assert!(list_type.arguments.is_some());
}

#[test]
fn line_comment_is_an_item_before_the_proc() {
    let (ast, diagnostics) = parse_source(b"// comment\nproc f(): int {}");
    assert!(diagnostics.is_empty());
    assert_eq!(item_kinds(&ast), vec!["comment", "proc"]);
}

#[test]
fn lone_proc_reports_one_missing_token() {
    let (ast, diagnostics) = parse_source(b"proc");
    assert_eq!(diagnostics.len(), 1);
    assert!(matches!(diagnostics[0], AnyDiagnostic::MissingTok(_)));
    assert!(ast.root.ll_head.is_none());
}

#[test]
fn garbage_before_a_proc_is_skipped() {
    let (ast, diagnostics) = parse_source(b"garbage proc main(): int {}");
    assert_eq!(diagnostics.len(), 1);
    let AnyDiagnostic::MissingTok(missing) = &diagnostics[0];
    assert_eq!(missing.at.addr(), 0);
    assert_eq!(missing.at.pack_idx(), 0);
    assert_eq!(missing.source_unit, 0);
    assert_eq!(item_kinds(&ast), vec!["proc"]);
}

#[test]
fn missing_token_view_quotes_the_position() {
    let (_ast, diagnostics) = parse_source(b"proc f(: int {}");
    assert!(!diagnostics.is_empty());
    let view = diagnostics[0].view();
    assert!(view.severity == DiagnosticSeverity::Error);
    assert_eq!(view.title, "Missing token");
    assert_eq!(view.elements.len(), 1);
    let DiagnosticViewElement::SourceQuote(quote) = view.elements.get(0) else { panic!(); };
    assert_eq!(quote.source_unit, 0);
    assert_eq!(quote.indicated_toks.len(), 1);
}

#[test]
fn empty_source_parses_to_nothing() {
    let (ast, diagnostics) = parse_source(b"");
    assert!(diagnostics.is_empty());
    assert!(ast.root.ll_head.is_none());
}

#[test]
fn recovery_resumes_at_the_next_declarator() {
    let (ast, diagnostics) = parse_source(b"proc a( proc b(): int {}");
    assert_eq!(diagnostics.len(), 1);
    assert_eq!(item_kinds(&ast), vec!["proc"]);
}
