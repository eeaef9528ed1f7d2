use libcyan::tok::lex::lex;
use libcyan::tok::tok::{StaticTok, Tok};
use libcyan::tok::tokbuf::TokCursor;
use libcyan::util::str_interner::StrInterner;

#[test]
fn lex_smoke_test() {
    let source_text = "\
        proc main() {\n    \
            std::println(\"Hello World\");\n\
        }\n\
    ".as_bytes();

    let mut string_interner = StrInterner::default();
    let tokbuf = lex(source_text, &mut string_interner);
    let toks: Vec<Tok> = tokbuf.iter(&string_interner);

    assert!(matches!(toks[0], Tok::Static(StaticTok::Proc)));
    assert!(matches!(toks[1], Tok::Static(StaticTok::Space)));
    let Tok::Ident(main_ident) = toks[2] else { panic!("pattern did not match"); };
    assert_eq!(main_ident.source_text.get(), "main".as_bytes());
    assert!(matches!(toks[3], Tok::Static(StaticTok::OpenParen)));
    assert!(matches!(toks[4], Tok::Static(StaticTok::CloseParen)));
    assert!(matches!(toks[5], Tok::Static(StaticTok::Space)));
    assert!(matches!(toks[6], Tok::Static(StaticTok::OpenCurly)));
    assert!(matches!(toks[7], Tok::Linebreak));
    assert!(matches!(toks[8], Tok::Align(_)));
    let Tok::Ident(std_ident) = toks[9] else { panic!("pattern did not match"); };
    assert_eq!(std_ident.source_text.get(), "std".as_bytes());
    assert!(matches!(toks[10], Tok::Static(StaticTok::ColonColon)));
    let Tok::Ident(println_ident) = toks[11] else { panic!("pattern did not match"); };
    assert_eq!(println_ident.source_text.get(), "println".as_bytes());
    assert!(matches!(toks[12], Tok::Static(StaticTok::OpenParen)));
    assert!(matches!(toks[13], Tok::StrLiteral(_)));
    assert!(matches!(toks[14], Tok::Static(StaticTok::CloseParen)));
    assert!(matches!(toks[15], Tok::Static(StaticTok::Semicolon)));
    assert!(matches!(toks[16], Tok::Linebreak));
    assert!(matches!(toks[17], Tok::Static(StaticTok::CloseCurly)));
    assert!(matches!(toks[18], Tok::Linebreak));
}

#[test]
fn test_keyword_identifer_disambiguation() {
    // This is an identifier even though it begins with a keyword.
    let source_text = "procaaaa".as_bytes();

    let mut string_interner = StrInterner::default();
    let tokbuf = lex(source_text, &mut string_interner);
    let toks: Vec<Tok> = tokbuf.iter(&string_interner);

    assert_eq!(toks.len(), 1);
    let Tok::Ident(ident) = toks[0] else { panic!("pattern did not match"); };
    assert_eq!(ident.source_text.get(), source_text);
}

#[test]
fn keyword_alone_and_before_a_space() {
    let mut interner = StrInterner::default();
    let tokbuf = lex(b"proc", &mut interner);
    let toks = tokbuf.iter(&interner);
    assert_eq!(toks.len(), 1);
    assert!(matches!(toks[0], Tok::Static(StaticTok::Proc)));

    let tokbuf = lex(b"proc main", &mut interner);
    let toks = tokbuf.iter(&interner);
    assert_eq!(toks.len(), 3);
    assert!(matches!(toks[0], Tok::Static(StaticTok::Proc)));
    assert!(matches!(toks[1], Tok::Static(StaticTok::Space)));
    let Tok::Ident(ident) = toks[2] else { panic!(); };
    assert_eq!(ident.source_text.get(), b"main");
}

#[test]
fn proc_definition_lexes_in_order() {
    let mut interner = StrInterner::default();
    let tokbuf = lex(b"proc main(): int {\n    \n}", &mut interner);
    let toks = tokbuf.iter(&interner);
    assert_eq!(toks.len(), 14);
    assert!(matches!(toks[0], Tok::Static(StaticTok::Proc)));
    assert!(matches!(toks[1], Tok::Static(StaticTok::Space)));
    let Tok::Ident(main_ident) = toks[2] else { panic!(); };
    assert_eq!(main_ident.source_text.get(), b"main");
    assert!(matches!(toks[3], Tok::Static(StaticTok::OpenParen)));
    assert!(matches!(toks[4], Tok::Static(StaticTok::CloseParen)));
    assert!(matches!(toks[5], Tok::Static(StaticTok::Colon)));
    assert!(matches!(toks[6], Tok::Static(StaticTok::Space)));
    let Tok::Ident(int_ident) = toks[7] else { panic!(); };
    assert_eq!(int_ident.source_text.get(), b"int");
    assert!(matches!(toks[8], Tok::Static(StaticTok::Space)));
    assert!(matches!(toks[9], Tok::Static(StaticTok::OpenCurly)));
    assert!(matches!(toks[10], Tok::Linebreak));
    let Tok::Align(align) = toks[11] else { panic!(); };
    assert_eq!(align.count, 4);
    assert!(matches!(toks[12], Tok::Linebreak));
    assert!(matches!(toks[13], Tok::Static(StaticTok::CloseCurly)));
}

#[test]
fn string_literal_keeps_its_quotes() {
    let source = b"\"Hello World\"";
    let mut interner = StrInterner::default();
    let tokbuf = lex(source, &mut interner);
    let toks = tokbuf.iter(&interner);
    assert_eq!(toks.len(), 1);
    let Tok::StrLiteral(lit) = toks[0] else { panic!(); };
    assert_eq!(lit.str_ref.get().len(), 13);
    assert_eq!(lit.str_ref.get(), source);
}

#[test]
fn unterminated_string_literal_runs_to_the_end() {
    let mut interner = StrInterner::default();
    let tokbuf = lex(b"\"abc", &mut interner);
    let toks = tokbuf.iter(&interner);
    assert_eq!(toks.len(), 1);
    let Tok::StrLiteral(lit) = toks[0] else { panic!(); };
    assert_eq!(lit.str_ref.get(), b"\"abc");
}

#[test]
fn statics_with_spaces_pack_in_push_order() {
    let mut interner = StrInterner::default();
    let tokbuf = lex(b"if let & ::", &mut interner);
    let toks = tokbuf.iter(&interner);
    let expected = [
        StaticTok::If,
        StaticTok::Space,
        StaticTok::Let,
        StaticTok::Space,
        StaticTok::Ampersand,
        StaticTok::Space,
        StaticTok::ColonColon,
    ];
    assert_eq!(toks.len(), expected.len());
    for (tok, want) in toks.iter().zip(expected.iter()) {
        let Tok::Static(got) = tok else { panic!(); };
        assert_eq!(got, want);
    }
    assert_eq!(tokbuf.len(), 3);
}

#[test]
fn line_comment_then_linebreak() {
    let mut interner = StrInterner::default();
    let tokbuf = lex(b"// comment\nproc f(): int {}", &mut interner);
    let toks = tokbuf.iter(&interner);
    let Tok::LineComment(lc) = toks[0] else { panic!(); };
    assert_eq!(lc.str_ref.get(), b" comment");
    assert!(matches!(toks[1], Tok::Linebreak));
    assert!(matches!(toks[2], Tok::Static(StaticTok::Proc)));
}

#[test]
fn digits_spaces_and_unknown_bytes() {
    let mut interner = StrInterner::default();
    let tokbuf = lex(b"42 $\n\n  <= == / x_1", &mut interner);
    let toks = tokbuf.iter(&interner);
    let Tok::DecIntLiteral(lit) = toks[0] else { panic!(); };
    assert_eq!(lit.str_ref.get(), b"42");
    assert!(matches!(toks[1], Tok::Static(StaticTok::Space)));
    let Tok::Unexpected(u) = toks[2] else { panic!(); };
    assert_eq!(u.ch, b'$');
    assert!(matches!(toks[3], Tok::Linebreak));
    assert!(matches!(toks[4], Tok::Linebreak));
    let Tok::Align(align) = toks[5] else { panic!(); };
    assert_eq!(align.count, 2);
    assert!(matches!(toks[6], Tok::Static(StaticTok::LessThanEq)));
    assert!(matches!(toks[7], Tok::Static(StaticTok::Space)));
    assert!(matches!(toks[8], Tok::Static(StaticTok::EqEq)));
    assert!(matches!(toks[9], Tok::Static(StaticTok::Space)));
    let Tok::Unexpected(slash) = toks[10] else { panic!(); };
    assert_eq!(slash.ch, b'/');
    assert!(matches!(toks[11], Tok::Static(StaticTok::Space)));
    let Tok::Ident(ident) = toks[12] else { panic!(); };
    assert_eq!(ident.source_text.get(), b"x_1");
    assert_eq!(toks.len(), 13);
}

#[test]
fn empty_input_has_no_tokens() {
    let mut interner = StrInterner::default();
    let tokbuf = lex(b"", &mut interner);
    assert_eq!(tokbuf.iter(&interner).len(), 0);
    assert_eq!(tokbuf.len(), 0);
}

#[test]
fn line_numbers_count_preceding_linebreaks() {
    let source = b"a\nb \"x\ny\" c\n\nd";
    let mut interner = StrInterner::default();
    let tokbuf = lex(source, &mut interner);
    let mut cursor = TokCursor::new(&tokbuf, &interner);
    let mut lines: Vec<usize> = Vec::new();
    let mut idents: Vec<Vec<u8>> = Vec::new();
    while cursor.has_next() {
        if let Some(Tok::Ident(ident)) = cursor.read() {
            idents.push(ident.source_text.get().to_vec());
            lines.push(tokbuf.get_line_no(cursor.at().addr()));
        }
        cursor.forward();
    }
    assert_eq!(idents, vec![b"a".to_vec(), b"b".to_vec(), b"c".to_vec(), b"d".to_vec()]);
    assert_eq!(lines, vec![0, 1, 2, 4]);
}
