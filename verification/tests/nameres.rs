use kadouchi::errors::{
    InvalidExportError, PathResolutionError, PrivacyError, ResolutionError, ShadowingError,
    UnknownNameError,
};
use kadouchi::nameres::{check_path_valid, find_referent, glob_import, resolve_recursive};
use kadouchi::tokens::parse_file;
use kadouchi::{AbsPath2, Item};

fn new_root_with_intrinsic() -> Item {
    let mut root = Item::named("root");
    let mut intrinsic = Item::named("intrinsic");
    intrinsic.path = AbsPath2::new(vec![0]);
    root.add_child(intrinsic);
    root
}

#[test]
fn test_traverse_path_1() {
    let mut root = Item::named("root");

    let mut prelude = Item::named("prelude");
    prelude.path = AbsPath2::new(vec![0]);
    let prelude_path = prelude.path.clone();

    let mut prelude_item = Item::named("prelude_item");
    prelude_item.path = AbsPath2::new(vec![0, 0]);

    prelude.add_child(prelude_item);
    root.add_child(prelude);

    assert_eq!(
        Some("prelude".to_string()),
        root.traverse_path(&prelude_path).local_name
    );
}

#[test]
fn test_find_referent() {
    let mut root = Item::named("root");
    let mut item_a = Item::named("a");
    let mut item_b = Item::named("b");
    let mut item_c = Item::named("c");
    let mut item_d = Item::named("d");
    let item_e = Item::named("e");

    item_a.path = AbsPath2::new(vec![0]);
    item_b.path = AbsPath2::new(vec![0, 0]);
    item_c.path = AbsPath2::new(vec![0, 0, 0]);
    item_d.path = AbsPath2::new(vec![0, 0, 0, 0]);

    item_d.add_child(item_e);
    item_c.add_child(item_d);
    item_b.add_child(item_c);
    item_a.add_child(item_b);
    root.add_child(item_a);

    // the scope chain root, a, b, c — innermost last
    let spine = vec![
        root.ns.items[0].clone(),
        root.ns.items[0].ns.items[0].clone(),
        root.ns.items[0].ns.items[0].ns.items[0].clone(),
    ];

    assert!(find_referent(&"a".to_string(), &root, &spine).is_ok());
    assert!(find_referent(&"b".to_string(), &root, &spine).is_ok());
    assert!(find_referent(&"c".to_string(), &root, &spine).is_ok());
    assert!(find_referent(&"d".to_string(), &root, &spine).is_ok());

    assert!(find_referent(&"no".to_string(), &root, &spine).is_err());
    assert!(find_referent(&"root".to_string(), &root, &spine).is_err());
    assert!(find_referent(&"e".to_string(), &root, &spine).is_err());

    let item = find_referent(&"c".to_string(), &root, &spine).unwrap();

    assert_eq!(item, &root.ns.items[0].ns.items[0].ns.items[0]);
}

#[test]
fn test_resolve_recursive_1() {
    let token_tree =
        parse_file(r#"intrinsic("regexp") as regexp    regexp("aaa") as str"#).unwrap();

    let root = new_root_with_intrinsic();

    let mut lib = Item::named("test_lib");
    lib.path = AbsPath2::new(vec![root.next_idx()]);

    let mut current_path = lib.path.clone();

    let mut spine = vec![lib];
    resolve_recursive(&token_tree, &root, &mut spine, &mut current_path).unwrap();
    let lib = spine.pop().unwrap();

    assert_eq!(lib.ns.items.len(), 2);

    assert_eq!(lib.ns.items[0].local_name, Some("regexp".to_string()));
    assert_eq!(lib.ns.items[1].local_name, Some("str".to_string()));

    assert_eq!(lib.ns.items[0].referent, Some(AbsPath2::new(vec![0])));
    assert_eq!(lib.ns.items[1].referent, Some(AbsPath2::new(vec![1, 0])));
}

#[test]
fn test_resolve_recursive_2() {
    let source = &br#"
intrinsic("module") as module
intrinsic("export") as export

module(
    intrinsic("abcd") as item_a
    intrinsic("efgh") as item_b

    export(item_a item_b)
) as date
"#[..];

    let mut root = new_root_with_intrinsic();

    kadouchi::parse_lib("std", &source, &mut root, None).unwrap();

    assert_eq!(
        root.ns.items[1].ns.items[2].ns.items[2].ns.items[0].referent,
        Some(AbsPath2::new(vec![1, 2, 0]))
    );
    assert_eq!(
        root.ns.items[1].ns.items[2].ns.items[2].ns.items[1].referent,
        Some(AbsPath2::new(vec![1, 2, 1]))
    );
    println!("{:#?}", root);
}

#[test]
fn test_glob_import() {
    let mut root = Item::named("root");

    let mut prelude = Item::named("prelude");
    prelude.path = AbsPath2::new(vec![0]);
    let prelude_path = prelude.path.clone();

    let mut prelude_item = Item::named("prelude_item");
    prelude_item.path = AbsPath2::new(vec![0, 0]);
    prelude.add_child(prelude_item);

    root.add_child(prelude);

    let mut lib = Item::named("lib");

    glob_import(&root, &prelude_path, &mut lib);

    assert_eq!(lib.ns.names().len(), 1);

    assert!(lib.ns.item("prelude_item").is_some());
}

#[test]
fn glob_import_aliasing() {
    // a prelude with an exported item `helper`; a library importing it
    // resolves bare `helper` to the prelude's address, not to the alias
    let mut root = new_root_with_intrinsic();
    let prelude_src = &b"intrinsic as export  intrinsic as helper  export(helper)"[..];
    let prelude_path = kadouchi::parse_lib("prelude", prelude_src, &mut root, None).unwrap();
    assert_eq!(prelude_path, AbsPath2::new(vec![1]));

    let lib_src = &b"helper as h"[..];
    kadouchi::parse_lib("mylib", lib_src, &mut root, Some(&prelude_path)).unwrap();

    let lib = &root.ns.items[2];
    // child 0 is the alias; child 1 is the binding `h`
    assert_eq!(lib.ns.items[0].local_name, Some("export".to_string()));
    assert_eq!(lib.ns.items[1].local_name, Some("helper".to_string()));
    assert_eq!(lib.ns.items[1].referent, Some(AbsPath2::new(vec![1, 1])));
    let h = &lib.ns.items[2];
    assert_eq!(h.local_name, Some("h".to_string()));
    // helper was declared second in the prelude: its address is [1, 1]
    assert_eq!(h.referent, Some(AbsPath2::new(vec![1, 1])));
}

#[test]
fn no_forward_reference() {
    // `x` is declared only after `first`: resolving first's argument fails
    let mut root = new_root_with_intrinsic();
    let src = &b"intrinsic as a  a(x) as first  first as second  intrinsic as x"[..];
    let err = kadouchi::parse_lib("lib", src, &mut root, None).unwrap_err();
    assert_eq!(
        err,
        ResolutionError::UnknownName(UnknownNameError("x".to_string()))
    );
}

#[test]
fn privacy_enforcement() {
    // `secret` is not exported: reaching through `m` is refused
    let mut root = new_root_with_intrinsic();
    let src = &b"intrinsic(intrinsic as secret) as m  m.secret as r"[..];
    let err = kadouchi::parse_lib("lib", src, &mut root, None).unwrap_err();
    assert_eq!(
        err,
        ResolutionError::Privacy(PrivacyError("secret".to_string()))
    );

    // after an export directive inside `m`, the same reference succeeds
    // and points at `m`'s address extended by secret's position
    let mut root = new_root_with_intrinsic();
    let src =
        &b"intrinsic as export  intrinsic(intrinsic as secret  export(secret)) as m  m.secret as r"[..];
    kadouchi::parse_lib("lib", src, &mut root, None).unwrap();
    let lib = &root.ns.items[1];
    let m = &lib.ns.items[1];
    assert_eq!(m.local_name, Some("m".to_string()));
    assert_eq!(m.path, AbsPath2::new(vec![1, 1]));
    assert_eq!(m.ns.items[0].local_name, Some("secret".to_string()));
    assert!(m.ns.items[0].exported);
    let r = &lib.ns.items[2];
    assert_eq!(r.referent, Some(AbsPath2::new(vec![1, 1, 0])));
}

#[test]
fn shadowing_rejection() {
    // two siblings bound to one name: the second fails
    let mut root = new_root_with_intrinsic();
    let src = &b"intrinsic as dup  intrinsic as dup"[..];
    let err = kadouchi::parse_lib("lib", src, &mut root, None).unwrap_err();
    assert_eq!(
        err,
        ResolutionError::Shadowing(ShadowingError("dup".to_string()))
    );

    // the same name in a child namespace is ordinary lexical scoping
    let mut root = new_root_with_intrinsic();
    let src = &b"intrinsic as dup  intrinsic(intrinsic as dup) as other"[..];
    assert!(kadouchi::parse_lib("lib", src, &mut root, None).is_ok());
}

#[test]
fn round_trip_idempotence() {
    // resolving one token tree against two structurally identical roots
    // yields structurally identical trees
    let src = &br#"
intrinsic as export
intrinsic(intrinsic as inner  export(inner)) as m
m.inner as use_inner
"#[..];
    let mut root1 = new_root_with_intrinsic();
    let mut root2 = new_root_with_intrinsic();
    kadouchi::parse_lib("lib", src, &mut root1, None).unwrap();
    kadouchi::parse_lib("lib", src, &mut root2, None).unwrap();
    assert_eq!(root1, root2);
}

#[test]
fn address_stability_of_resolved_tree() {
    // every item's address is its parent's address plus its position
    let src = &br#"
intrinsic as export
intrinsic(intrinsic as a  intrinsic(intrinsic as b) as nested  export(a)) as m
"#[..];
    let mut root = new_root_with_intrinsic();
    kadouchi::parse_lib("lib", src, &mut root, None).unwrap();
    let lib = &root.ns.items[1];
    assert_eq!(lib.path, AbsPath2::new(vec![1]));
    for (i, child) in lib.ns.items.iter().enumerate() {
        let mut expect = lib.path.clone();
        expect.push_segment(i);
        assert_eq!(child.path, expect);
        for (j, grand) in child.ns.items.iter().enumerate() {
            let mut expect2 = child.path.clone();
            expect2.push_segment(j);
            assert_eq!(grand.path, expect2);
        }
    }
    // dereferencing an address from the root reaches that very item
    let m = &lib.ns.items[1];
    assert!(check_path_valid(&root, &m.path));
    assert_eq!(root.traverse_path(&m.path), m);
}

#[test]
fn lookup_matches_list() {
    // the name lookup and the child list agree
    let src = &b"intrinsic as a  intrinsic as b  intrinsic"[..];
    let mut root = new_root_with_intrinsic();
    kadouchi::parse_lib("lib", src, &mut root, None).unwrap();
    let lib = &root.ns.items[1];
    assert_eq!(lib.ns.items.len(), 3);
    let names = lib.ns.names();
    assert_eq!(names, vec!["a".to_string(), "b".to_string()]);
    for nm in names.iter() {
        let found = lib.ns.item(nm).unwrap();
        assert_eq!(found.local_name, Some(nm.clone()));
    }
    assert!(lib.ns.item("c").is_none());
}

#[test]
fn path_resolution_error() {
    let mut root = new_root_with_intrinsic();
    let src =
        &b"intrinsic as export  intrinsic(intrinsic as inner  export(inner)) as m  m.nope as r"[..];
    let err = kadouchi::parse_lib("lib", src, &mut root, None).unwrap_err();
    assert_eq!(
        err,
        ResolutionError::PathResolution(PathResolutionError("nope".to_string()))
    );
}

#[test]
fn invalid_export_unknown_name() {
    let mut root = new_root_with_intrinsic();
    let src = &b"intrinsic as export  export(nothere)"[..];
    let err = kadouchi::parse_lib("lib", src, &mut root, None).unwrap_err();
    assert_eq!(
        err,
        ResolutionError::InvalidExport(InvalidExportError("nothere".to_string()))
    );
}

#[test]
fn invalid_export_literal_argument() {
    // an export argument that is neither named nor a bare name reports
    // the directive's own path
    let mut root = new_root_with_intrinsic();
    let src = &br#"intrinsic as export  export("x")"#[..];
    let err = kadouchi::parse_lib("lib", src, &mut root, None).unwrap_err();
    assert_eq!(
        err,
        ResolutionError::InvalidExport(InvalidExportError("export".to_string()))
    );
}

#[test]
fn literal_item_has_value_and_empty_namespace() {
    let mut root = new_root_with_intrinsic();
    let src = &br#"intrinsic("he llo") as x  intrinsic(42) as y"#[..];
    kadouchi::parse_lib("lib", src, &mut root, None).unwrap();
    let lib = &root.ns.items[1];
    let x_arg = &lib.ns.items[0].ns.items[0];
    assert_eq!(x_arg.literal, Some(kadouchi::tokens::Lit::Str("he llo".to_string())));
    assert!(x_arg.ns.items.is_empty());
    assert_eq!(x_arg.referent, None);
    let y_arg = &lib.ns.items[1].ns.items[0];
    // any run of digits is recognized by the decimal-number rule first
    assert_eq!(y_arg.literal, Some(kadouchi::tokens::Lit::Float("42".to_string())));
}

#[test]
fn abspath_operations() {
    let mut p = AbsPath2::root();
    assert!(p.iter_segments().is_empty());
    p.push_segment(3);
    p.push_segment(5);
    assert_eq!(p, AbsPath2::new(vec![3, 5]));
    let child = AbsPath2::new(vec![3, 5, 7]);
    assert!(child.is_parent(&p));
    assert!(!p.is_parent(&child));
    assert!(!child.is_parent(&AbsPath2::new(vec![3, 6])));
    let mut q = child.clone();
    assert_eq!(q.pop_segment(), 7);
    assert_eq!(q, p);
}

#[test]
fn item_constructors() {
    let a = Item::anon();
    assert_eq!(a.local_name, None);
    assert_eq!(a.path, AbsPath2::root());
    assert!(!a.exported);
    assert!(a.ns.items.is_empty());
    let n = Item::named("thing");
    assert_eq!(n.local_name, Some("thing".to_string()));
    let mut holder = Item::named("holder");
    let mut child = Item::named("kid");
    child.path = AbsPath2::new(vec![0]);
    assert_eq!(holder.next_idx(), 0);
    let idx = holder.add_child(child);
    assert_eq!(idx, 0);
    assert_eq!(holder.next_idx(), 1);
    let again = holder.clone();
    assert_eq!(holder, again);
}

#[test]
fn item_mut_edits_in_place() {
    let mut holder = Item::named("holder");
    let mut child = Item::named("kid");
    child.path = AbsPath2::new(vec![0]);
    holder.add_child(child);
    assert!(!holder.ns.item("kid").unwrap().exported);
    match holder.ns.item_mut(&"kid".to_string()) {
        Some(m) => m.exported = true,
        None => panic!("kid must be found"),
    }
    assert!(holder.ns.item("kid").unwrap().exported);
    assert!(holder.ns.item_mut(&"nobody".to_string()).is_none());
}
