//! The front end of a small module-oriented language: it turns a tree of
//! parsed expressions into a fully resolved, privacy-checked symbol graph
//! of items with stable structural addresses.

use vstd::prelude::*;

pub mod errors;
pub mod nameres;
pub mod tokens;

pub use crate::nameres::{AbsPath2, Item, Namespace};

use crate::errors::{ErrV, ResolutionError, SyntaxError};
use crate::nameres::{
    expsv_wf, item_view, lemma_items_view, path_valid, resolve, spec_resolve, ItemV,
};
use crate::tokens::{exps_view, parse_file, ExpV};

verus! {

/// The decoding of a byte sequence as UTF-8 text, when it has one.
/// What it is depends on the bytes alone.
pub uninterp spec fn utf8_decoded(bytes: Seq<u8>) -> Option<Seq<char>>;

/// Relies on core::str::from_utf8: a byte slice either is valid UTF-8 and
/// views as a fixed sequence of characters, or it is rejected; the outcome
/// depends on the bytes alone.
#[verifier::external_body]
fn utf8_to_str(bytes: &[u8]) -> (r: Option<&str>)
    ensures
        match r {
            Some(s) => utf8_decoded(bytes@) == Some(s@),
            None => utf8_decoded(bytes@) is None,
        },
{
    match core::str::from_utf8(bytes) {
        Ok(s) => Some(s),
        Err(_) => None,
    }
}

/// The ghost value of an optional prelude address.
pub open spec fn prelude_view(p: Option<&AbsPath2>) -> Option<Seq<int>> {
    match p {
        Some(pp) => Some(pp@),
        None => None,
    }
}

/// The largest position at which `c` occurs in `s`, and `-1` when it does
/// not occur.
pub open spec fn last_pos(s: Seq<char>, c: char) -> int
    decreases s.len(),
{
    if s.len() == 0 {
        -1
    } else if s.last() == c {
        s.len() - 1
    } else {
        last_pos(s.drop_last(), c)
    }
}

pub proof fn lemma_last_pos(s: Seq<char>, c: char)
    ensures
        -1 <= last_pos(s, c) < s.len(),
        last_pos(s, c) >= 0 ==> s[last_pos(s, c)] == c,
        forall|j: int| last_pos(s, c) < j < s.len() ==> s[j] != c,
    decreases s.len(),
{
    if s.len() > 0 {
        lemma_last_pos(s.drop_last(), c);
        if s.last() != c {
            assert forall|j: int| last_pos(s, c) < j < s.len() implies s[j] != c by {
                if j < s.len() - 1 {
                    assert(s.drop_last()[j] == s[j]);
                }
            }
        }
    }
}

/// The final path component of `s`: everything after the last slash.
pub open spec fn spec_file_name(s: Seq<char>) -> Seq<char> {
    s.subrange(last_pos(s, '/') + 1, s.len() as int)
}

/// The stem of a file name: everything before the last dot, unless the
/// dot is the very first character or there is none.
pub open spec fn spec_stem(name: Seq<char>) -> Seq<char> {
    let d = last_pos(name, '.');
    if d <= 0 {
        name
    } else {
        name.subrange(0, d)
    }
}

/// The library name carried by a file path: the stem of its final
/// component, and nothing when that component is empty.
pub open spec fn spec_libname(s: Seq<char>) -> Option<Seq<char>> {
    let name = spec_file_name(s);
    if name.len() == 0 {
        None
    } else {
        Some(spec_stem(name))
    }
}

/// The position after the last occurrence of `c` in `s`, and `0` when
/// there is none.
fn find_after_last(s: &str, c: char) -> (r: usize)
    ensures
        r as int == last_pos(s@, c) + 1,
{
    let n = s.unicode_len();
    let mut found: usize = 0;
    let mut i: usize = 0;
    while i < n
        invariant
            0 <= i <= n,
            n == s@.len(),
            found as int == last_pos(s@.subrange(0, i as int), c) + 1,
        decreases n - i,
    {
        let ch = s.get_char(i);
        proof {
            let q = s@.subrange(0, i + 1);
            assert(q.drop_last() =~= s@.subrange(0, i as int));
            assert(q.last() == s@[i as int]);
        }
        if ch == c {
            found = i + 1;
        }
        i = i + 1;
    }
    proof {
        assert(s@.subrange(0, n as int) =~= s@);
    }
    found
}

/// The library name carried by a file path: the stem of its final
/// path component.
pub fn get_libname(filename: &str) -> (r: Option<String>)
    ensures
        match r {
            Some(nm) => spec_libname(filename@) == Some(nm@),
            None => spec_libname(filename@) is None,
        },
{
    let n = filename.unicode_len();
    let start = find_after_last(filename, '/');
    if start >= n {
        proof {
            lemma_last_pos(filename@, '/');
            assert(spec_file_name(filename@).len() == 0);
        }
        return None;
    }
    let ghost name = spec_file_name(filename@);
    let dot = find_after_last(filename, '.');
    // `dot` is one past the last dot of the whole path; it names a dot of
    // the final component only when it lies strictly inside it.
    let cut = if dot >= 2 && dot - 2 >= start && dot <= n {
        dot - 1
    } else {
        n
    };
    proof {
        lemma_last_pos(filename@, '.');
        lemma_last_pos(filename@, '/');
        let d = last_pos(name, '.');
        lemma_last_pos(name, '.');
        // relate the last dot of the final component to the last dot of s
        if dot >= 2 && dot - 2 >= start && dot <= n {
            assert(filename@[dot - 1] == '.');
            assert(name[dot - 1 - start] == filename@[dot - 1]);
            assert forall|j: int| dot - 1 - start < j < name.len() implies name[j] != '.' by {
                assert(name[j] == filename@[j + start]);
            }
            assert(d == dot - 1 - start);
            assert(cut == d + start);
            assert(name.subrange(0, d) =~= filename@.subrange(start as int, cut as int));
        } else {
            assert(d <= 0) by {
                if d > 0 {
                    assert(name[d] == '.');
                    assert(filename@[d + start] == '.');
                    assert(d + start <= last_pos(filename@, '.'));
                    assert(last_pos(filename@, '.') < start + 1 || last_pos(filename@, '.') + 1
                        > n);
                }
            }
            assert(name =~= filename@.subrange(start as int, n as int));
        }
    }
    let stem = filename.substring_char(start, cut);
    Some(stem.to_owned())
}

/// Decodes and parses one library source and resolves it against `root`,
/// optionally glob-importing the prelude namespace at `prelude_path`
/// first; on success the resolved library is attached under `root` and
/// its address is returned.
pub fn parse_lib(
    libname: &str,
    bytes: &[u8],
    root: &mut Item,
    prelude_path: Option<&AbsPath2>,
) -> (r: Result<AbsPath2, ResolutionError>)
    requires
        old(root)@.path == Seq::<int>::empty(),
        match prelude_path {
            Some(p) => path_valid(old(root)@, p@, 0),
            None => true,
        },
    ensures
        match r {
            Ok(p) => {
                &&& utf8_decoded(bytes@) is Some
                &&& final(root)@.children.len() == old(root)@.children.len() + 1
                &&& p@ == seq![old(root)@.children.len() as int]
                &&& final(root)@ == (ItemV {
                    children: old(root)@.children.push(final(root)@.children.last()),
                    ..old(root)@
                })
                &&& exists|ts: Seq<ExpV>|
                    expsv_wf(ts) && #[trigger] spec_resolve(
                        libname@,
                        ts,
                        old(root)@,
                        prelude_view(prelude_path),
                    ) == Ok::<ItemV, ErrV>(final(root)@.children.last())
            },
            Err(e) => {
                &&& final(root)@ == old(root)@
                &&& (e@ == ErrV::Syntax || exists|ts: Seq<ExpV>|
                    expsv_wf(ts) && #[trigger] spec_resolve(
                        libname@,
                        ts,
                        old(root)@,
                        prelude_view(prelude_path),
                    ) == Err::<ItemV, ErrV>(e@))
                &&& (utf8_decoded(bytes@) is None ==> e@ == ErrV::Syntax)
            },
        },
{
    let text = match utf8_to_str(bytes) {
        Some(t) => t,
        None => {
            return Err(ResolutionError::Syntax(SyntaxError));
        },
    };
    let token_tree = match parse_file(text) {
        Ok(t) => t,
        Err(e) => {
            return Err(ResolutionError::Syntax(e));
        },
    };
    let lib = match resolve(libname, token_tree.as_slice(), root, prelude_path) {
        Ok(l) => l,
        Err(e) => {
            proof {
                let ts = exps_view(token_tree@);
                assert(spec_resolve(libname@, ts, old(root)@, prelude_view(prelude_path))
                    == Err::<ItemV, ErrV>(e@));
            }
            return Err(e);
        },
    };
    let ghost libv = item_view(lib);
    let ghost ts = exps_view(token_tree@);
    proof {
        lemma_items_view(root.ns.items@);
        let rootv = old(root)@;
        let lib0 = ItemV {
            name: Some(libname@),
            path: seq![rootv.children.len() as int],
            exported: false,
            children: Seq::<ItemV>::empty(),
            referent: None,
            literal: None,
        };
        let lib1 = match prelude_view(prelude_path) {
            Some(p) => crate::nameres::spec_glob_aliases(
                crate::nameres::spec_traverse(rootv, p, 0).children,
                p,
                0,
                lib0,
            ),
            None => lib0,
        };
        match prelude_view(prelude_path) {
            Some(p) => {
                crate::nameres::lemma_glob_frame(
                    crate::nameres::spec_traverse(rootv, p, 0).children,
                    p,
                    0,
                    lib0,
                );
            },
            None => {},
        }
        crate::nameres::lemma_resolve_exps_frame(ts, seq![rootv], lib1);
        assert(libv.path == seq![rootv.children.len() as int]);
        assert(rootv.path.push(rootv.children.len() as int) =~= seq![
            rootv.children.len() as int
        ]);
    }
    let idx = root.add_child(lib);
    let mut segs: Vec<usize> = Vec::new();
    segs.push(idx);
    proof {
        assert(final(root)@.children.last() == libv);
        assert(segs@.map_values(|u: usize| u as int) =~= seq![old(root)@.children.len() as int]);
    }
    Ok(AbsPath2::new(segs))
}

} // verus!
