use libcyan::tok::ident::Ident;
use libcyan::tok::tok::{Align, LineComment, StaticTok, StrLiteral, Tok, Unexpected};
use libcyan::tok::tokbuf::{EntryType, Key, TokBuf, TokCursor};
use libcyan::util::str_interner::StrInterner;
use libcyan::util::str_list::StrRef;

#[test]
fn test_static_pack() {
    let mut interner = StrInterner::default();
    let mut tokbuf = TokBuf::new();
    tokbuf.push(Tok::Static(StaticTok::If), &mut interner);
    tokbuf.push(Tok::Static(StaticTok::Let), &mut interner);
    tokbuf.push(Tok::Static(StaticTok::Ampersand), &mut interner);
    tokbuf.push(Tok::Static(StaticTok::ColonColon), &mut interner);
    let toks: Vec<Tok> = tokbuf.iter(&interner);
    assert!(matches!(toks[0], Tok::Static(StaticTok::If)));
    assert!(matches!(toks[1], Tok::Static(StaticTok::Let)));
    assert!(matches!(toks[2], Tok::Static(StaticTok::Ampersand)));
    assert!(matches!(toks[3], Tok::Static(StaticTok::ColonColon)));
}

#[test]
fn test_str_literal() {
    let mut interner = StrInterner::default();
    let mut tokbuf = TokBuf::new();
    const SOURCE_TEXT: &'static [u8] = "\"Hello World\"".as_bytes();
    tokbuf.push(Tok::StrLiteral(StrLiteral { str_ref: StrRef::Slice(SOURCE_TEXT) }), &mut interner);
    let toks: Vec<Tok> = tokbuf.iter(&interner);
    let Tok::StrLiteral(lit) = toks[0] else { panic!(); };
    assert_eq!(lit.str_ref.get(), SOURCE_TEXT);
}

#[test]
fn test_ident() {
    let mut interner = StrInterner::default();
    let mut tokbuf = TokBuf::new();
    const SOURCE_TEXT: &'static [u8] = "main".as_bytes();
    tokbuf.push(Tok::Ident(Ident::new(SOURCE_TEXT)), &mut interner);
    let toks: Vec<Tok> = tokbuf.iter(&interner);
    let Tok::Ident(ident) = toks[0] else { panic!(); };
    assert_eq!(ident.source_text.get(), SOURCE_TEXT);
}

#[test]
fn test_id_conversion() {
    for variant in EntryType::variants() {
        let converted = EntryType::from_id(variant.id());
        assert_eq!(converted, Some(variant));
    }
}

#[test]
fn static_tokens_pack_three_to_an_entry() {
    let mut interner = StrInterner::default();
    let mut tokbuf = TokBuf::new();
    for n in 1..=7usize {
        tokbuf.push(Tok::Static(StaticTok::Comma), &mut interner);
        assert_eq!(tokbuf.len(), (n + 2) / 3);
    }
    tokbuf.push(Tok::Linebreak, &mut interner);
    assert_eq!(tokbuf.len(), 4);
    tokbuf.push(Tok::Static(StaticTok::If), &mut interner);
    assert_eq!(tokbuf.len(), 5);
}

#[test]
fn every_kind_reads_back_through_the_cursor() {
    let mut interner = StrInterner::default();
    let mut tokbuf = TokBuf::new();
    tokbuf.push(Tok::Static(StaticTok::Proc), &mut interner);
    tokbuf.push(Tok::Static(StaticTok::Space), &mut interner);
    tokbuf.push(Tok::Ident(Ident::new(b"main")), &mut interner);
    tokbuf.push(Tok::Align(Align { count: 4 }), &mut interner);
    tokbuf.push(Tok::LineComment(LineComment { str_ref: StrRef::Slice(b" note") }), &mut interner);
    tokbuf.push(Tok::Linebreak, &mut interner);
    tokbuf.push(Tok::Unexpected(Unexpected { ch: b'$' }), &mut interner);
    tokbuf.push(Tok::Static(StaticTok::Semicolon), &mut interner);
    let mut cursor = TokCursor::new(&tokbuf, &interner);
    let mut seen: Vec<Tok> = Vec::new();
    while cursor.has_next() {
        seen.push(cursor.read().unwrap());
        cursor.forward();
    }
    assert!(cursor.read().is_none());
    assert_eq!(seen.len(), 8);
    assert!(matches!(seen[0], Tok::Static(StaticTok::Proc)));
    assert!(matches!(seen[1], Tok::Static(StaticTok::Space)));
    let Tok::Ident(ident) = seen[2] else { panic!(); };
    assert_eq!(ident.source_text.get(), b"main");
    let Tok::Align(align) = seen[3] else { panic!(); };
    assert_eq!(align.count, 4);
    let Tok::LineComment(lc) = seen[4] else { panic!(); };
    assert_eq!(lc.str_ref.get(), b" note");
    assert!(matches!(seen[5], Tok::Linebreak));
    let Tok::Unexpected(u) = seen[6] else { panic!(); };
    assert_eq!(u.ch, b'$');
    assert!(matches!(seen[7], Tok::Static(StaticTok::Semicolon)));
}

#[test]
fn get_by_key_decodes_packs_and_rejects_empty_slots() {
    let mut interner = StrInterner::default();
    let mut tokbuf = TokBuf::new();
    tokbuf.push(Tok::Static(StaticTok::If), &mut interner);
    tokbuf.push(Tok::Static(StaticTok::Let), &mut interner);
    tokbuf.push(Tok::Ident(Ident::new(b"x")), &mut interner);
    assert!(matches!(tokbuf.get(&interner, Key::new(0, 0)), Some(Tok::Static(StaticTok::If))));
    assert!(matches!(tokbuf.get(&interner, Key::new(0, 1)), Some(Tok::Static(StaticTok::Let))));
    assert!(tokbuf.get(&interner, Key::new(0, 2)).is_none());
    assert!(tokbuf.get(&interner, Key::new(0, 3)).is_none());
    assert!(matches!(tokbuf.get(&interner, Key::new(1, 0)), Some(Tok::Ident(_))));
    assert!(tokbuf.get(&interner, Key::new(1, 1)).is_none());
    assert!(tokbuf.get(&interner, Key::new(2, 0)).is_none());
}

#[test]
fn key_packs_address_and_index() {
    let key = Key::new(0x12_3456, 2);
    assert_eq!(key.addr(), 0x12_3456);
    assert_eq!(key.pack_idx(), 2);
    let origin = Key::default();
    assert_eq!(origin.addr(), 0);
    assert_eq!(origin.pack_idx(), 0);
}

#[test]
fn identifiers_share_interned_keys() {
    let mut interner = StrInterner::default();
    let mut tokbuf = TokBuf::new();
    tokbuf.push(Tok::Ident(Ident::new(b"abc")), &mut interner);
    let after_first = interner.str_list().get(1).to_vec();
    tokbuf.push(Tok::Ident(Ident::new(b"abc")), &mut interner);
    assert_eq!(after_first, b"abc");
    let toks = tokbuf.iter(&interner);
    let (Tok::Ident(a), Tok::Ident(b)) = (toks[0], toks[1]) else { panic!(); };
    assert_eq!(a.source_text.get(), b.source_text.get());
}

#[test]
fn cursor_next_reads_then_advances() {
    let mut interner = StrInterner::default();
    let mut tokbuf = TokBuf::new();
    tokbuf.push(Tok::Static(StaticTok::OpenParen), &mut interner);
    tokbuf.push(Tok::Static(StaticTok::CloseParen), &mut interner);
    let mut cursor = TokCursor::new(&tokbuf, &interner);
    assert!(matches!(cursor.next(), Some(Tok::Static(StaticTok::OpenParen))));
    assert_eq!(cursor.at().pack_idx(), 1);
    assert!(matches!(cursor.next(), Some(Tok::Static(StaticTok::CloseParen))));
    assert_eq!(cursor.at().addr(), 1);
    assert!(cursor.next().is_none());
    assert!(!cursor.has_next());
}
