use kadouchi::errors::{ResolutionError, SyntaxError};
use kadouchi::{get_libname, parse_lib, AbsPath2, Item};

fn new_root_with_intrinsic() -> Item {
    let mut root = Item::named("root");
    let mut intrinsic = Item::named("intrinsic");
    intrinsic.path = AbsPath2::new(vec![0]);
    root.add_child(intrinsic);
    root
}

#[test]
fn test_get_libname() {
    assert_eq!(get_libname("src/std.ku"), Some("std".to_string()))
}

#[test]
fn get_libname_edge_cases() {
    assert_eq!(get_libname("plain"), Some("plain".to_string()));
    assert_eq!(get_libname("dir/sub/lib_1.ku"), Some("lib_1".to_string()));
    assert_eq!(get_libname("a/.hidden"), Some(".hidden".to_string()));
    assert_eq!(get_libname("a.b.c"), Some("a.b".to_string()));
    assert_eq!(get_libname("dir/"), None);
    assert_eq!(get_libname(""), None);
}

#[test]
fn parse_lib_returns_new_address() {
    let mut root = new_root_with_intrinsic();
    let p = parse_lib("one", b"intrinsic as a", &mut root, None).unwrap();
    assert_eq!(p, AbsPath2::new(vec![1]));
    let q = parse_lib("two", b"intrinsic as b", &mut root, None).unwrap();
    assert_eq!(q, AbsPath2::new(vec![2]));
    assert_eq!(root.ns.items.len(), 3);
    assert_eq!(root.ns.items[1].local_name, Some("one".to_string()));
    assert_eq!(root.ns.items[2].local_name, Some("two".to_string()));
}

#[test]
fn parse_lib_rejects_bad_syntax() {
    let mut root = new_root_with_intrinsic();
    let err = parse_lib("lib", b"(((", &mut root, None).unwrap_err();
    assert_eq!(err, ResolutionError::Syntax(SyntaxError));
    // a failed resolution leaves the root as it was
    assert_eq!(root.ns.items.len(), 1);
}

#[test]
fn parse_lib_rejects_invalid_utf8() {
    let mut root = new_root_with_intrinsic();
    let err = parse_lib("lib", &[0xff, 0xfe], &mut root, None).unwrap_err();
    assert_eq!(err, ResolutionError::Syntax(SyntaxError));
}

#[test]
fn parse_lib_decodes_utf8_text() {
    // the byte input is decoded, not passed through: the literal below is
    // two characters long but three bytes of input
    let mut root = new_root_with_intrinsic();
    let src = "intrinsic(\"h\u{e9}\") as x".as_bytes();
    parse_lib("lib", src, &mut root, None).unwrap();
    let lit = &root.ns.items[1].ns.items[0].ns.items[0].literal;
    assert_eq!(
        lit,
        &Some(kadouchi::tokens::Lit::Str("h\u{e9}".to_string()))
    );
}

#[test]
fn empty_source_resolves_to_empty_library() {
    let mut root = new_root_with_intrinsic();
    let p = parse_lib("empty", b"", &mut root, None).unwrap();
    assert_eq!(p, AbsPath2::new(vec![1]));
    let lib = &root.ns.items[1];
    assert_eq!(lib.local_name, Some("empty".to_string()));
    assert!(lib.ns.items.is_empty());
}

#[test]
fn whitespace_only_source_is_empty() {
    let mut root = new_root_with_intrinsic();
    parse_lib("blank", b"  \n\t  ", &mut root, None).unwrap();
    assert!(root.ns.items[1].ns.items.is_empty());
}
