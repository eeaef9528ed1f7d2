use libcyan::tok::ident::{is_ident_ch, is_ident_chs, is_ident_prefix_ch, is_ident_str, iter_ident_prefix_chs};
use libcyan::tok::tok::StaticTok;
use libcyan::util::ascii::{is_alphabetic_ch, is_alphanumeric_ch, is_numeric_ch};
use libcyan::util::bits::{fast_hash, Truncate};
use libcyan::util::bump_allocator::BumpAllocator;
use libcyan::util::inline_vec::InlineVec;
use libcyan::util::misc::max_of_usizes;
use libcyan::util::prefix_tree::PrefixTree;
use libcyan::util::str_interner::StrInterner;
use libcyan::util::str_list::{StrList, StrListRef, StrRef};

#[test]
fn interning_is_unique_and_idempotent() {
    let mut interner = StrInterner::default();
    let a = interner.intern(b"alpha");
    let b = interner.intern(b"beta");
    let a2 = interner.intern(b"alpha");
    assert_eq!(a, a2);
    assert_ne!(a, b);
    assert_eq!(interner.str_list().get(a), b"alpha");
    assert_eq!(interner.str_list().get(b), b"beta");
}

#[test]
fn interning_many_strings_survives_growth() {
    let mut interner = StrInterner::default();
    let mut keys = Vec::new();
    for i in 0..200u32 {
        let s = format!("name{}", i);
        keys.push(interner.intern(s.as_bytes()));
    }
    for i in 0..200u32 {
        let s = format!("name{}", i);
        assert_eq!(interner.intern(s.as_bytes()), keys[i as usize]);
        assert_eq!(interner.str_list().get(keys[i as usize]), s.as_bytes());
    }
}

#[test]
fn str_list_keys_are_offsets_plus_one() {
    let mut list = StrList::default();
    let k1 = list.push(b"ab");
    let k2 = list.push(b"");
    let k3 = list.push(b"xyz");
    assert_eq!(k1, 1);
    assert_eq!(k2, 1 + 8 + 2);
    assert_eq!(k3, 1 + 8 + 2 + 8);
    assert_eq!(list.get(k1), b"ab");
    assert_eq!(list.get(k2), b"");
    assert_eq!(list.get(k3), b"xyz");
    list.shrink_to_fit();
    let r = StrListRef::new(&list, k3);
    assert_eq!(r.get(), b"xyz");
    assert_eq!(StrRef::List(r).get(), b"xyz");
    assert_eq!(StrRef::Slice(b"q").get(), b"q");
}

#[test]
fn fast_hash_values() {
    assert_eq!(fast_hash(b""), 0);
    assert_eq!(fast_hash(b"a"), 31 * 31 * 97);
    assert_eq!(fast_hash(b"ab"), 31 * 31 * 31 * 97 + 31 * 31 * 98);
}

#[test]
fn truncate_keeps_low_byte() {
    let x: u32 = 0x1234_56ab;
    let low: u8 = x.truncate();
    assert_eq!(low, 0xab);
}

#[test]
fn ascii_classes() {
    assert!(is_alphabetic_ch(b'a') && is_alphabetic_ch(b'Z'));
    assert!(!is_alphabetic_ch(b'_') && !is_alphabetic_ch(b'['));
    assert!(is_numeric_ch(b'0') && is_numeric_ch(b'9') && !is_numeric_ch(b'a'));
    assert!(is_alphanumeric_ch(b'7') && is_alphanumeric_ch(b'q') && !is_alphanumeric_ch(b'-'));
    assert!(is_ident_ch(b'_') && is_ident_ch(b'3'));
    assert!(is_ident_prefix_ch(b'_') && !is_ident_prefix_ch(b'3'));
    assert!(is_ident_chs(b"a_1") && !is_ident_chs(b"a-1"));
    assert!(is_ident_str(b"proc") && !is_ident_str(b"1x") && !is_ident_str(b""));
    let prefixes = iter_ident_prefix_chs();
    assert_eq!(prefixes.len(), 53);
    assert_eq!(prefixes[0], b'_');
}

#[test]
fn static_token_ids_round_trip() {
    for (i, t) in StaticTok::variants().iter().enumerate() {
        assert_eq!(t.id() as usize, i + 1);
        assert_eq!(StaticTok::from_id(t.id()), Some(*t));
    }
    assert_eq!(StaticTok::from_id(0), None);
    assert_eq!(StaticTok::from_id(32), None);
    assert_eq!(StaticTok::Proc.source_text(), b"proc");
    assert_eq!(StaticTok::ColonColon.source_text(), b"::");
}

#[test]
fn prefix_tree_finds_the_longest_match() {
    let mut tree: PrefixTree<u32> = PrefixTree::default();
    assert_eq!(tree.insert_seq(b"<", 1), None);
    assert_eq!(tree.insert_seq(b"<=", 2), None);
    assert_eq!(tree.insert_seq(b"<", 3), Some(1));
    assert_eq!(tree.get(b"<=x"), Some(&2));
    assert_eq!(tree.get(b"<x"), Some(&3));
    assert_eq!(tree.get(b"x"), None);
    assert_eq!(tree.get(b""), None);
}

#[test]
fn arena_handles_survive_shrinking() {
    let mut arena: BumpAllocator<u64> = BumpAllocator::new(8);
    let h1 = arena.bump(10);
    let h2 = arena.bump(20);
    let h3 = arena.bump(30);
    assert_eq!(h1.key(), 1);
    assert_eq!(h3.key(), 3);
    *arena.get_mut(h2) = 25;
    arena.shrink_to_fit();
    assert_eq!(*arena.get(h1), 10);
    assert_eq!(*arena.get(h2), 25);
    assert_eq!(*arena.get(h3), 30);
}

#[test]
fn inline_vec_and_max() {
    let v: InlineVec<u8, 3> = InlineVec::from_array([4, 5]);
    assert_eq!(v.len(), 2);
    assert_eq!(*v.get(1), 5);
    let mut w: InlineVec<u8, 2> = InlineVec::new();
    w.push(9);
    assert_eq!(w.len(), 1);
    assert_eq!(max_of_usizes(&[3, 9, 2]), 9);
}
