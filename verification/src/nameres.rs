//! The name-resolution engine: the item tree with its addresses, the
//! scope-stack resolver, export and privacy rules, and glob import of a
//! prelude namespace.  Every exec function here is proved to compute
//! exactly what the ghost model (`spec_resolve` and its helpers) says.

use vstd::prelude::*;

use crate::errors::{
    ErrV, InvalidExportError, PathResolutionError, PrivacyError, ResolutionError, ShadowingError,
    UnknownNameError,
};
use crate::tokens::{exp_view, exps_view, lemma_exps_view, path_join, AnonExp, AnonV, Call, Exp, ExpV, Lit,
    LitV, Path};

verus! {

broadcast use
    vstd::seq::axiom_seq_index_decreases,
    vstd::seq::axiom_seq_subrange_decreases,
    vstd::std_specs::vec::axiom_vec_decreases_to_view,
    crate::tokens::lemma_exps_view;

/// The absolute address of one item: the sequence of child indices that
/// leads to it from the root of the whole program tree.
#[derive(Debug, PartialEq, Eq)]
pub struct AbsPath2 {
    pub inner: Vec<usize>,
}

impl View for AbsPath2 {
    type V = Seq<int>;

    open spec fn view(&self) -> Seq<int> {
        self.inner@.map_values(|u: usize| u as int)
    }
}

impl Clone for AbsPath2 {
    /// Copies the address segment by segment.
    fn clone(&self) -> (r: Self)
        ensures
            r@ == self@,
            r.inner@ == self.inner@,
    {
        let mut segs: Vec<usize> = Vec::new();
        let n = self.inner.len();
        let mut i: usize = 0;
        while i < n
            invariant
                0 <= i <= n,
                n == self.inner@.len(),
                segs@ == self.inner@.subrange(0, i as int),
            decreases n - i,
        {
            segs.push(self.inner[i]);
            proof {
                assert(self.inner@.subrange(0, i + 1) =~= self.inner@.subrange(0, i as int).push(
                    self.inner@[i as int],
                ));
            }
            i = i + 1;
        }
        proof {
            assert(self.inner@.subrange(0, n as int) =~= self.inner@);
        }
        AbsPath2 { inner: segs }
    }
}

impl AbsPath2 {
    /// Wraps an explicit segment list as an address.
    pub fn new(path: Vec<usize>) -> (r: Self)
        ensures
            r.inner@ == path@,
            r@ == path@.map_values(|u: usize| u as int),
    {
        AbsPath2 { inner: path }
    }

    /// The address of the program root: the empty segment list.
    pub fn root() -> (r: Self)
        ensures
            r@ == Seq::<int>::empty(),
            r.inner@ == Seq::<usize>::empty(),
    {
        proof {
            assert(Seq::<usize>::empty().map_values(|u: usize| u as int) =~= Seq::<int>::empty());
        }
        AbsPath2 { inner: Vec::new() }
    }

    /// The underlying segment list, in root-to-leaf order.
    pub fn iter_segments(&self) -> (r: &Vec<usize>)
        ensures
            r@ == self.inner@,
            r@.map_values(|u: usize| u as int) == self@,
    {
        &self.inner
    }

    /// Appends one child index at the leaf end.
    pub fn push_segment(&mut self, seg: usize)
        ensures
            final(self)@ == old(self)@.push(seg as int),
            final(self).inner@ == old(self).inner@.push(seg),
    {
        self.inner.push(seg);
        proof {
            assert(self.inner@.map_values(|u: usize| u as int) =~= old(self)@.push(seg as int));
        }
    }

    /// Removes and returns the trailing child index.  The root address is
    /// never popped.
    pub fn pop_segment(&mut self) -> (r: usize)
        requires
            old(self)@.len() > 0,
        ensures
            r as int == old(self)@.last(),
            final(self)@ == old(self)@.drop_last(),
            final(self).inner@ == old(self).inner@.drop_last(),
    {
        let r = self.inner.pop().unwrap();
        proof {
            assert(self.inner@ =~= old(self).inner@.drop_last());
            assert(self.inner@.map_values(|u: usize| u as int) =~= old(self)@.drop_last());
        }
        r
    }

    /// True exactly when `self` is one segment longer than `parent_path` and
    /// shares all of its leading segments: the address of a direct child.
    pub fn is_parent(&self, parent_path: &AbsPath2) -> (r: bool)
        ensures
            r == (self@.len() == parent_path@.len() + 1 && self@.subrange(
                0,
                parent_path@.len() as int,
            ) == parent_path@),
    {
        let n = self.inner.len();
        let m = parent_path.inner.len();
        if n == 0 || n - 1 != m {
            proof {
                assert(self@.len() == n && parent_path@.len() == m);
            }
            return false;
        }
        let mut i: usize = 0;
        while i < m
            invariant
                0 <= i <= m,
                n == self.inner@.len(),
                m == parent_path.inner@.len(),
                n == m + 1,
                forall|j: int| 0 <= j < i ==> self.inner@[j] == parent_path.inner@[j],
            decreases m - i,
        {
            if self.inner[i] != parent_path.inner[i] {
                proof {
                    assert(self@[i as int] != parent_path@[i as int]);
                    assert(self@.subrange(0, m as int)[i as int] == self@[i as int]);
                }
                return false;
            }
            i = i + 1;
        }
        proof {
            assert(self@.subrange(0, m as int) =~= parent_path@);
        }
        true
    }
}

/// The ordered collection of an item's children.  The name-to-index lookup
/// is derived from the list itself: the list is the only source of truth.
#[derive(Debug, PartialEq, Eq)]
pub struct Namespace {
    pub items: Vec<Item>,
}

/// One resolved binding node in the program tree.
#[derive(Debug, PartialEq, Eq)]
pub struct Item {
    pub local_name: Option<String>,
    pub path: AbsPath2,
    pub exported: bool,
    pub ns: Namespace,
    pub referent: Option<AbsPath2>,
    pub literal: Option<Lit>,
}

/// Ghost mirror of an item, with every field replaced by its mathematical
/// value.
pub struct ItemV {
    pub name: Option<Seq<char>>,
    pub path: Seq<int>,
    pub exported: bool,
    pub children: Seq<ItemV>,
    pub referent: Option<Seq<int>>,
    pub literal: Option<LitV>,
}

/// The ghost value of one item.
pub open spec fn item_view(it: Item) -> ItemV
    decreases it,
{
    ItemV {
        name: match it.local_name {
            Some(s) => Some(s@),
            None => None,
        },
        path: it.path@,
        exported: it.exported,
        children: items_view(it.ns.items@),
        referent: match it.referent {
            Some(p) => Some(p@),
            None => None,
        },
        literal: match it.literal {
            Some(l) => Some(l@),
            None => None,
        },
    }
}

/// The ghost value of a list of items, element by element.
pub open spec fn items_view(s: Seq<Item>) -> Seq<ItemV>
    decreases s,
{
    if s.len() == 0 {
        Seq::empty()
    } else {
        seq![item_view(s[0])] + items_view(s.subrange(1, s.len() as int))
    }
}

impl View for Item {
    type V = ItemV;

    open spec fn view(&self) -> ItemV {
        item_view(*self)
    }
}

impl View for Namespace {
    type V = Seq<ItemV>;

    open spec fn view(&self) -> Seq<ItemV> {
        items_view(self.items@)
    }
}

pub broadcast proof fn lemma_items_view(s: Seq<Item>)
    ensures
        (#[trigger] items_view(s)).len() == s.len(),
        forall|i: int| 0 <= i < s.len() ==> items_view(s)[i] == item_view(s[i]),
    decreases s.len(),
{
    if s.len() > 0 {
        let rest = s.subrange(1, s.len() as int);
        lemma_items_view(rest);
        assert forall|i: int| 0 <= i < s.len() implies items_view(s)[i] == item_view(s[i]) by {
            if i > 0 {
                assert(rest[i - 1] == s[i]);
                assert(items_view(s)[i] == items_view(rest)[i - 1]);
            }
        }
    }
}

/// The index of the first child carrying `name`, if any.
pub open spec fn lookup(children: Seq<ItemV>, name: Seq<char>) -> Option<int>
    decreases children.len(),
{
    if children.len() == 0 {
        None
    } else if children[0].name == Some(name) {
        Some(0int)
    } else {
        match lookup(children.subrange(1, children.len() as int), name) {
            Some(i) => Some(i + 1),
            None => None,
        }
    }
}

/// What `lookup` returns: the first index bound to `name`, or nothing when
/// no child carries `name`.
pub proof fn lemma_lookup(children: Seq<ItemV>, name: Seq<char>)
    ensures
        match lookup(children, name) {
            Some(i) => 0 <= i < children.len() && children[i].name == Some(name) && forall|j: int|
                0 <= j < i ==> children[j].name != Some(name),
            None => forall|j: int| 0 <= j < children.len() ==> children[j].name != Some(name),
        },
    decreases children.len(),
{
    if children.len() > 0 {
        let rest = children.subrange(1, children.len() as int);
        lemma_lookup(rest, name);
        if children[0].name != Some(name) {
            match lookup(rest, name) {
                Some(i) => {
                    assert(rest[i] == children[i + 1]);
                    assert forall|j: int| 0 <= j < i + 1 implies children[j].name != Some(name) by {
                        if j > 0 {
                            assert(rest[j - 1] == children[j]);
                        }
                    }
                },
                None => {
                    assert forall|j: int| 0 <= j < children.len() implies children[j].name != Some(
                        name,
                    ) by {
                        if j > 0 {
                            assert(rest[j - 1] == children[j]);
                        }
                    }
                },
            }
        }
    }
}

impl Namespace {
    /// A namespace with no children at all.
    pub fn empty() -> (r: Self)
        ensures
            r@ == Seq::<ItemV>::empty(),
            r.items@.len() == 0,
    {
        Namespace { items: Vec::new() }
    }

    /// The index of the first child bound to `name`, or `None` when the
    /// namespace holds no such binding.
    pub fn lookup_index(&self, name: &String) -> (r: Option<usize>)
        ensures
            match r {
                Some(i) => lookup(self@, name@) == Some(i as int),
                None => lookup(self@, name@) is None,
            },
    {
        proof {
            lemma_items_view(self.items@);
            lemma_lookup(self@, name@);
        }
        let n = self.items.len();
        let mut i: usize = 0;
        while i < n
            invariant
                0 <= i <= n,
                n == self.items@.len(),
                self@.len() == n,
                forall|j: int| 0 <= j < i ==> self@[j].name != Some(name@),
                forall|j: int| 0 <= j < n ==> self@[j] == item_view(self.items@[j]),
                match lookup(self@, name@) {
                    Some(k) => 0 <= k < n && self@[k].name == Some(name@) && forall|j: int|
                        0 <= j < k ==> self@[j].name != Some(name@),
                    None => forall|j: int| 0 <= j < n ==> self@[j].name != Some(name@),
                },
            decreases n - i,
        {
            let has = match &self.items[i].local_name {
                Some(n2) => {
                    let eq = *n2 == *name;
                    proof {
                        assert(item_view(self.items@[i as int]).name == Some(n2@));
                    }
                    eq
                },
                None => {
                    proof {
                        assert(item_view(self.items@[i as int]).name is None);
                    }
                    false
                },
            };
            if has {
                proof {
                    assert(self@[i as int].name == Some(name@));
                }
                return Some(i);
            }
            i = i + 1;
        }
        None
    }

    /// The first child bound to `name`, if any.
    pub fn item(&self, name: &str) -> (r: Option<&Item>)
        ensures
            match r {
                Some(it) => lookup(self@, name@) matches Some(i) && self@[i] == item_view(*it),
                None => lookup(self@, name@) is None,
            },
    {
        proof {
            lemma_items_view(self.items@);
            lemma_lookup(self@, name@);
        }
        let owned = name.to_owned();
        match self.lookup_index(&owned) {
            Some(i) => Some(&self.items[i]),
            None => None,
        }
    }

    /// The first child bound to `name`, for mutation in place.
    pub fn item_mut(&mut self, name: &String) -> (r: Option<&mut Item>)
        ensures
            match r {
                Some(m) => {
                    &&& lookup(old(self)@, name@) matches Some(i) && old(self)@[i] == item_view(
                        *m,
                    ) && final(self)@ == old(self)@.update(i, item_view(*final(m)))
                },
                None => lookup(old(self)@, name@) is None && final(self)@ == old(self)@,
            },
    {
        broadcast use lemma_items_view_update;

        proof {
            lemma_items_view(self.items@);
            lemma_lookup(self@, name@);
        }
        match self.lookup_index(name) {
            Some(i) => Some(&mut self.items[i]),
            None => None,
        }
    }

    /// The names bound in this namespace, in child order.
    pub fn names(&self) -> (r: Vec<String>)
        ensures
            r@.len() == named_indices(self@).len(),
            forall|k: int|
                0 <= k < r@.len() ==> self@[named_indices(self@)[k]].name == Some(r@[k]@),
    {
        proof {
            lemma_items_view(self.items@);
        }
        let n = self.items.len();
        let mut out: Vec<String> = Vec::new();
        let mut i: usize = 0;
        while i < n
            invariant
                0 <= i <= n,
                n == self.items@.len(),
                self@.len() == n,
                forall|j: int| 0 <= j < n ==> self@[j] == item_view(self.items@[j]),
                out@.len() == named_indices(self@.subrange(0, i as int)).len(),
                forall|k: int| #![trigger out@[k]]
                    0 <= k < out@.len() ==> {
                        let idx = named_indices(self@.subrange(0, i as int))[k];
                        0 <= idx < i && self@[idx].name == Some(out@[k]@)
                    },
            decreases n - i,
        {
            proof {
                lemma_named_indices_step(self@, i as int);
            }
            match &self.items[i].local_name {
                Some(nm) => {
                    let copy = clone_string(nm);
                    out.push(copy);
                },
                None => {},
            }
            i = i + 1;
        }
        proof {
            assert(self@.subrange(0, n as int) =~= self@);
        }
        out
    }
}

/// The indices of the children that carry a name, in child order.
pub open spec fn named_indices(children: Seq<ItemV>) -> Seq<int>
    decreases children.len(),
{
    if children.len() == 0 {
        Seq::empty()
    } else {
        let prefix = named_indices(children.drop_last());
        if children.last().name is Some {
            prefix.push(children.len() - 1)
        } else {
            prefix
        }
    }
}

proof fn lemma_named_indices_step(children: Seq<ItemV>, i: int)
    requires
        0 <= i < children.len(),
    ensures
        children[i].name is Some ==> named_indices(children.subrange(0, i + 1))
            == named_indices(children.subrange(0, i)).push(i),
        children[i].name is None ==> named_indices(children.subrange(0, i + 1)) == named_indices(
            children.subrange(0, i),
        ),
        forall|k: int|
            0 <= k < named_indices(children.subrange(0, i)).len() ==> 0 <= #[trigger]
                named_indices(children.subrange(0, i))[k] < i,
{
    let q = children.subrange(0, i + 1);
    assert(q.drop_last() =~= children.subrange(0, i));
    assert(q.last() == children[i]);
    lemma_named_indices_bound(children.subrange(0, i));
}

proof fn lemma_named_indices_bound(children: Seq<ItemV>)
    ensures
        forall|k: int|
            0 <= k < named_indices(children).len() ==> 0 <= #[trigger] named_indices(children)[k]
                < children.len(),
    decreases children.len(),
{
    if children.len() > 0 {
        let prefix = named_indices(children.drop_last());
        lemma_named_indices_bound(children.drop_last());
        if children.last().name is Some {
            assert forall|k: int|
                0 <= k < named_indices(children).len() implies 0 <= #[trigger] named_indices(
                children,
            )[k] < children.len() by {
                if k < prefix.len() {
                    assert(named_indices(children)[k] == prefix[k]);
                }
            }
        }
    }
}

/// Copies a string character for character.
fn clone_string(s: &String) -> (r: String)
    ensures
        r@ == s@,
{
    s.clone()
}

/// True of the alias items that a glob import creates: their `path` is the
/// address of the aliased source item, which their `referent` repeats.
pub open spec fn is_alias(v: ItemV) -> bool {
    v.referent == Some(v.path)
}

/// The item reached from `v` by following the child indices of `p`,
/// starting at segment `k`.
pub open spec fn spec_traverse(v: ItemV, p: Seq<int>, k: int) -> ItemV
    decreases p.len() - k,
{
    if k < 0 || k >= p.len() {
        v
    } else {
        spec_traverse(v.children[p[k]], p, k + 1)
    }
}

/// True when every index of `p` from position `k` on selects an existing
/// child of the item reached so far.
pub open spec fn path_valid(v: ItemV, p: Seq<int>, k: int) -> bool
    decreases p.len() - k,
{
    k >= p.len() || (0 <= k && 0 <= p[k] < v.children.len() && path_valid(
        v.children[p[k]],
        p,
        k + 1,
    ))
}

pub broadcast proof fn lemma_items_view_push(s: Seq<Item>, x: Item)
    ensures
        #[trigger] items_view(s.push(x)) == items_view(s).push(item_view(x)),
{
    lemma_items_view(s.push(x));
    lemma_items_view(s);
    assert(items_view(s.push(x)) =~= items_view(s).push(item_view(x))) by {
        assert forall|i: int| 0 <= i < s.len() + 1 implies items_view(s.push(x))[i] == items_view(
            s,
        ).push(item_view(x))[i] by {
            if i < s.len() {
                assert(s.push(x)[i] == s[i]);
            } else {
                assert(s.push(x)[i] == x);
            }
        }
    }
}

pub broadcast proof fn lemma_items_view_update(s: Seq<Item>, i: int, x: Item)
    requires
        0 <= i < s.len(),
    ensures
        #[trigger] items_view(s.update(i, x)) == items_view(s).update(i, item_view(x)),
{
    lemma_items_view(s.update(i, x));
    lemma_items_view(s);
    assert(items_view(s.update(i, x)) =~= items_view(s).update(i, item_view(x))) by {
        assert forall|j: int| 0 <= j < s.len() implies items_view(s.update(i, x))[j] == items_view(
            s,
        ).update(i, item_view(x))[j] by {
            if j != i {
                assert(s.update(i, x)[j] == s[j]);
            } else {
                assert(s.update(i, x)[j] == x);
            }
        }
    }
}

impl Item {
    /// A detached item with no name: empty namespace, not exported, no
    /// referent, no literal, addressed provisionally at the root.
    pub fn anon() -> (r: Self)
        ensures
            r@ == (ItemV {
                name: None,
                path: Seq::empty(),
                exported: false,
                children: Seq::empty(),
                referent: None,
                literal: None,
            }),
    {
        Item {
            local_name: None,
            path: AbsPath2::root(),
            exported: false,
            ns: Namespace::empty(),
            referent: None,
            literal: None,
        }
    }

    /// A detached item carrying `name`, otherwise as `anon`.
    pub fn named(name: &str) -> (r: Self)
        ensures
            r@ == (ItemV {
                name: Some(name@),
                path: Seq::empty(),
                exported: false,
                children: Seq::empty(),
                referent: None,
                literal: None,
            }),
    {
        Item {
            local_name: Some(name.to_owned()),
            path: AbsPath2::root(),
            exported: false,
            ns: Namespace::empty(),
            referent: None,
            literal: None,
        }
    }

    /// Records a literal value on this item.
    pub fn set_lit(&mut self, lit: &Lit)
        ensures
            final(self)@ == (ItemV { literal: Some(lit@), ..old(self)@ }),
    {
        self.literal = Some(lit.clone());
    }

    /// The index that the next appended child will receive.
    pub fn next_idx(&self) -> (r: usize)
        ensures
            r as int == self@.children.len(),
    {
        proof {
            lemma_items_view(self.ns.items@);
        }
        self.ns.items.len()
    }

    /// Appends `child` to this item's namespace and returns the index it
    /// received.  The child must already carry the address it gets here;
    /// only an alias item, whose address points at the aliased source item,
    /// may be attached elsewhere than its address says.
    pub fn add_child(&mut self, child: Item) -> (idx: usize)
        requires
            item_view(child).path == old(self)@.path.push(old(self)@.children.len() as int)
                || item_view(child).referent is Some,
        ensures
            idx as int == old(self)@.children.len(),
            final(self)@ == (ItemV {
                children: old(self)@.children.push(item_view(child)),
                ..old(self)@
            }),
            final(self).local_name == old(self).local_name,
            final(self).path == old(self).path,
            final(self).exported == old(self).exported,
            final(self).referent == old(self).referent,
            final(self).literal == old(self).literal,
    {
        proof {
            lemma_items_view(self.ns.items@);
            lemma_items_view_push(self.ns.items@, child);
        }
        let idx = self.ns.items.len();
        self.ns.items.push(child);
        idx
    }

    /// Follows the child indices of `path` downward from this item.
    pub fn traverse_path<'a>(&'a self, path: &AbsPath2) -> (r: &'a Item)
        requires
            path_valid(self@, path@, 0),
        ensures
            item_view(*r) == spec_traverse(self@, path@, 0),
    {
        let mut cur: &Item = self;
        let n = path.inner.len();
        let mut k: usize = 0;
        while k < n
            invariant
                0 <= k <= n,
                n == path@.len(),
                path_valid(item_view(*cur), path@, k as int),
                spec_traverse(item_view(*cur), path@, k as int) == spec_traverse(
                    self@,
                    path@,
                    0,
                ),
            decreases n - k,
        {
            let idx = path.inner[k];
            proof {
                lemma_items_view(cur.ns.items@);
                assert(path@[k as int] == idx as int);
            }
            cur = &cur.ns.items[idx];
            k = k + 1;
        }
        cur
    }
}

/// Copies an address, when one is present.
fn clone_opt_path(p: &Option<AbsPath2>) -> (r: Option<AbsPath2>)
    ensures
        match r {
            Some(q) => p matches Some(q0) && q@ == q0@ && q.inner@ == q0.inner@,
            None => p is None,
        },
{
    match p {
        Some(q) => Some(q.clone()),
        None => None,
    }
}

/// Deep copy of an item and its whole subtree, preserving its ghost value.
pub fn clone_item(it: &Item) -> (r: Item)
    ensures
        r@ == it@,
    decreases *it,
{
    let mut kids: Vec<Item> = Vec::new();
    let n = it.ns.items.len();
    let mut i: usize = 0;
    while i < n
        invariant
            0 <= i <= n,
            n == it.ns.items@.len(),
            kids@.len() == i,
            forall|j: int| 0 <= j < i ==> item_view(kids@[j]) == item_view(it.ns.items@[j]),
        decreases n - i,
    {
        let c = clone_item(&it.ns.items[i]);
        kids.push(c);
        i = i + 1;
    }
    proof {
        lemma_items_view(kids@);
        lemma_items_view(it.ns.items@);
        assert(items_view(kids@) =~= items_view(it.ns.items@));
    }
    let local_name = match &it.local_name {
        Some(s) => Some(s.clone()),
        None => None,
    };
    let literal = match &it.literal {
        Some(l) => Some(l.clone()),
        None => None,
    };
    Item {
        local_name,
        path: it.path.clone(),
        exported: it.exported,
        ns: Namespace { items: kids },
        referent: clone_opt_path(&it.referent),
        literal,
    }
}

impl Clone for Item {
    /// Deep copy of the item and its whole subtree.
    fn clone(&self) -> (r: Self)
        ensures
            r@ == self@,
    {
        clone_item(self)
    }
}

// ------------------------------------------------------------------
// The ghost model of resolution.  Each exec function below is proved to
// return exactly what these spec functions compute.
// ------------------------------------------------------------------

/// Well-formed expression: every call path has at least one segment.
pub open spec fn expv_wf(e: ExpV) -> bool
    decreases e,
{
    match e.anon {
        AnonV::Call { path, args } => path.len() >= 1 && expsv_wf(args),
        AnonV::Literal(_) => true,
    }
}

/// Well-formed expression list, element by element.
pub open spec fn expsv_wf(s: Seq<ExpV>) -> bool
    decreases s,
{
    forall|i: int| 0 <= i < s.len() ==> expv_wf(#[trigger] s[i])
}

/// The chain of namespaces consulted during resolution: the shared root
/// first, then the still-open ancestors, innermost last.
pub open spec fn scopes_view(root: Item, spine: Seq<Item>) -> Seq<ItemV> {
    seq![item_view(root)] + items_view(spine)
}

/// Searches the scope chain from the innermost namespace outward and
/// returns the first child bound to `name`.
pub open spec fn spec_find_in_scopes(scopes: Seq<ItemV>, name: Seq<char>) -> Option<ItemV>
    decreases scopes.len(),
{
    if scopes.len() == 0 {
        None
    } else {
        let top = scopes.last();
        match lookup(top.children, name) {
            Some(i) => Some(top.children[i]),
            None => spec_find_in_scopes(scopes.drop_last(), name),
        }
    }
}

/// Walks the path segments from position `k` downward from `item`,
/// demanding an exported child at every hop, and accumulates the child
/// indices onto `abs`.
pub open spec fn spec_walk(path: Seq<Seq<char>>, k: int, item: ItemV, abs: Seq<int>) -> Result<
    (ItemV, Seq<int>),
    ErrV,
>
    decreases path.len() - k,
{
    if k >= path.len() {
        Ok((item, abs))
    } else {
        let seg = path[k];
        match lookup(item.children, seg) {
            Some(i) => if item.children[i].exported {
                spec_walk(path, k + 1, item.children[i], abs.push(i))
            } else {
                Err(ErrV::Privacy(seg))
            },
            None => Err(ErrV::PathRes(seg)),
        }
    }
}

/// Flips the exported flag of child `i`.
pub open spec fn mark_exported(children: Seq<ItemV>, i: int) -> Seq<ItemV> {
    children.update(i, ItemV { exported: true, ..children[i] })
}

/// Processes the arguments of an export directive from position `k` on:
/// each argument must name an already-declared child, either through its
/// explicit binding name or through the bare single-segment shorthand.
pub open spec fn spec_export_args(
    args: Seq<ExpV>,
    k: int,
    children: Seq<ItemV>,
    outer: Seq<Seq<char>>,
) -> Result<Seq<ItemV>, ErrV>
    decreases args.len() - k,
{
    if k < 0 || k >= args.len() {
        Ok(children)
    } else {
        let a = args[k];
        match a.name {
            Some(n) => match lookup(children, n) {
                Some(i) => spec_export_args(args, k + 1, mark_exported(children, i), outer),
                None => Err(ErrV::InvalidExport(n)),
            },
            None => match a.anon {
                AnonV::Call { path, args: _ } => {
                    if path.len() == 1 {
                        match lookup(children, path[0]) {
                            Some(i) => spec_export_args(
                                args,
                                k + 1,
                                mark_exported(children, i),
                                outer,
                            ),
                            None => Err(ErrV::InvalidExport(path[0])),
                        }
                    } else {
                        Err(ErrV::InvalidExport(path_join(outer)))
                    }
                },
                AnonV::Literal(_) => Err(ErrV::InvalidExport(path_join(outer))),
            },
        }
    }
}

/// The effect of one call expression on the exported flags of the open
/// namespace: only a call whose path is exactly the reserved export symbol
/// acts as a directive.
pub open spec fn spec_handle_export(
    callpath: Seq<Seq<char>>,
    args: Seq<ExpV>,
    children: Seq<ItemV>,
) -> Result<Seq<ItemV>, ErrV> {
    if callpath.len() == 1 && callpath[0] == "export"@ {
        spec_export_args(args, 0, children, callpath)
    } else {
        Ok(children)
    }
}

/// Resolution of one expression node against the open namespace `parent`
/// and the enclosing scopes: the new child is built, attached, and the
/// possibly updated parent is returned.
pub open spec fn spec_resolve_one(e: ExpV, scopes: Seq<ItemV>, parent: ItemV) -> Result<
    ItemV,
    ErrV,
>
    decreases e,
{
    if e.name matches Some(n) && lookup(parent.children, n) is Some {
        Err(ErrV::Shadowing(e.name.unwrap()))
    } else {
        match e.anon {
            AnonV::Call { path, args } => {
                match spec_find_in_scopes(scopes.push(parent), path[0]) {
                    None => Err(ErrV::Unknown(path[0])),
                    Some(base) => match spec_walk(path, 1, base, base.path) {
                        Err(er) => Err(er),
                        Ok((_target, refpath)) => match spec_handle_export(
                            path,
                            args,
                            parent.children,
                        ) {
                            Err(er) => Err(er),
                            Ok(children2) => {
                                let parent2 = ItemV { children: children2, ..parent };
                                let child0 = ItemV {
                                    name: e.name,
                                    path: parent.path.push(parent.children.len() as int),
                                    exported: false,
                                    children: Seq::empty(),
                                    referent: Some(refpath),
                                    literal: None,
                                };
                                match spec_resolve_exps(args, scopes.push(parent2), child0) {
                                    Err(er) => Err(er),
                                    Ok(child) => Ok(
                                        ItemV {
                                            children: parent2.children.push(child),
                                            ..parent2
                                        },
                                    ),
                                }
                            },
                        },
                    },
                }
            },
            AnonV::Literal(l) => {
                let child0 = ItemV {
                    name: e.name,
                    path: parent.path.push(parent.children.len() as int),
                    exported: false,
                    children: Seq::empty(),
                    referent: None,
                    literal: Some(l),
                };
                Ok(ItemV { children: parent.children.push(child0), ..parent })
            },
        }
    }
}

/// Resolution of a list of expression nodes, in declaration order; the
/// first failure aborts the whole resolution.
pub open spec fn spec_resolve_exps(exps: Seq<ExpV>, scopes: Seq<ItemV>, parent: ItemV) -> Result<
    ItemV,
    ErrV,
>
    decreases exps,
{
    if exps.len() == 0 {
        Ok(parent)
    } else {
        match spec_resolve_one(exps[0], scopes, parent) {
            Err(er) => Err(er),
            Ok(p2) => spec_resolve_exps(exps.subrange(1, exps.len() as int), scopes, p2),
        }
    }
}

/// The alias item that a glob import creates: it carries the address of
/// the aliased source item both as its own address and as its referent.
pub open spec fn alias_of(name: Seq<char>, addr: Seq<int>) -> ItemV {
    ItemV {
        name: Some(name),
        path: addr,
        exported: false,
        children: Seq::empty(),
        referent: Some(addr),
        literal: None,
    }
}

/// Appends, for every named child of the source namespace from position
/// `k` on, an alias item to `target`, in child order.
pub open spec fn spec_glob_aliases(
    src: Seq<ItemV>,
    src_path: Seq<int>,
    k: int,
    target: ItemV,
) -> ItemV
    decreases src.len() - k,
{
    if k < 0 || k >= src.len() {
        target
    } else {
        let t2 = match src[k].name {
            Some(n) => ItemV {
                children: target.children.push(alias_of(n, src_path.push(k))),
                ..target
            },
            None => target,
        };
        spec_glob_aliases(src, src_path, k + 1, t2)
    }
}

/// Resolution of one whole library: the new top-level item is addressed at
/// the next free index under the root, the prelude (when given) is
/// glob-imported first, and the token tree is then resolved with the root
/// as the only enclosing scope.
pub open spec fn spec_resolve(
    libname: Seq<char>,
    tokens: Seq<ExpV>,
    root: ItemV,
    prelude: Option<Seq<int>>,
) -> Result<ItemV, ErrV> {
    let lib0 = ItemV {
        name: Some(libname),
        path: seq![root.children.len() as int],
        exported: false,
        children: Seq::empty(),
        referent: None,
        literal: None,
    };
    let lib1 = match prelude {
        Some(p) => spec_glob_aliases(spec_traverse(root, p, 0).children, p, 0, lib0),
        None => lib0,
    };
    spec_resolve_exps(tokens, seq![root], lib1)
}

// ------------------------------------------------------------------
// The exec resolver.
// ------------------------------------------------------------------

/// Searches the scope chain for `name`, innermost namespace first: the
/// still-open ancestors on `spine` from the last backward, then the root.
pub fn find_referent<'a>(name: &String, root: &'a Item, spine: &'a Vec<Item>) -> (r: Result<
    &'a Item,
    UnknownNameError,
>)
    ensures
        match r {
            Ok(it) => spec_find_in_scopes(scopes_view(*root, spine@), name@) == Some(item_view(
                *it,
            )),
            Err(e) => spec_find_in_scopes(scopes_view(*root, spine@), name@) is None && e.0@
                == name@,
        },
{
    proof {
        lemma_items_view(spine@);
    }
    let ghost full: Seq<ItemV> = scopes_view(*root, spine@);
    proof {
        assert(full.subrange(0, 1 + spine@.len() as int) =~= full);
    }
    let mut k = spine.len();
    while k > 0
        invariant
            0 <= k <= spine@.len(),
            full == scopes_view(*root, spine@),
            full.len() == 1 + spine@.len(),
            forall|j: int| 0 <= j < spine@.len() ==> full[1 + j] == item_view(spine@[j]),
            full[0] == item_view(*root),
            spec_find_in_scopes(full, name@) == spec_find_in_scopes(
                full.subrange(0, 1 + k as int),
                name@,
            ),
        decreases k,
    {
        k = k - 1;
        let it = &spine[k];
        proof {
            let pre = full.subrange(0, 2 + k as int);
            assert(pre.len() == 2 + k);
            assert(pre.last() == full[1 + k as int]);
            assert(pre.last() == item_view(spine@[k as int]));
            assert(pre.drop_last() =~= full.subrange(0, 1 + k as int));
            lemma_items_view(it.ns.items@);
            lemma_lookup(item_view(*it).children, name@);
        }
        match it.ns.lookup_index(name) {
            Some(i) => {
                proof {
                    let pre = full.subrange(0, 2 + k as int);
                    let c = pre.last().children;
                    assert(lookup(c, name@) == Some(i as int));
                    assert(spec_find_in_scopes(pre, name@) == Some(c[i as int]));
                    assert(c[i as int] == item_view(it.ns.items@[i as int]));
                }
                return Ok(&it.ns.items[i]);
            },
            None => {},
        }
    }
    proof {
        let pre = full.subrange(0, 1);
        assert(pre.len() == 1);
        assert(pre.last() == full[0]);
        assert(pre.drop_last() =~= full.subrange(0, 0));
        assert(full.subrange(0, 0) =~= Seq::<ItemV>::empty());
        lemma_items_view(root.ns.items@);
        lemma_lookup(item_view(*root).children, name@);
    }
    match root.ns.lookup_index(name) {
        Some(i) => {
            proof {
                let pre = full.subrange(0, 1);
                let c = pre.last().children;
                assert(lookup(c, name@) == Some(i as int));
                assert(spec_find_in_scopes(pre, name@) == Some(c[i as int]));
                assert(c[i as int] == item_view(root.ns.items@[i as int]));
                assert(spec_find_in_scopes(full, name@) == Some(item_view(
                    root.ns.items@[i as int],
                )));
            }
            Ok(&root.ns.items[i])
        },
        None => {
            proof {
                let pre = full.subrange(0, 1);
                assert(lookup(pre.last().children, name@) is None);
                assert(spec_find_in_scopes(pre.drop_last(), name@) is None);
                assert(spec_find_in_scopes(pre, name@) is None);
                assert(spec_find_in_scopes(full, name@) is None);
            }
            Err(UnknownNameError(clone_string(name)))
        },
    }
}

/// Walks the later path segments downward from the item that the first
/// segment named, checking that every item passed into is exported, and
/// extends `abs_path` with the index of every hop.
pub fn walk_path<'a>(path: &Path, base: &'a Item, abs_path: &mut AbsPath2) -> (r: Result<
    &'a Item,
    ResolutionError,
>)
    requires
        path@.len() >= 1,
    ensures
        match r {
            Ok(it) => spec_walk(path@, 1, item_view(*base), old(abs_path)@) == Ok::<
                (ItemV, Seq<int>),
                ErrV,
            >((item_view(*it), final(abs_path)@)),
            Err(e) => spec_walk(path@, 1, item_view(*base), old(abs_path)@) == Err::<
                (ItemV, Seq<int>),
                ErrV,
            >(e@),
        },
{
    let n = path.0.len();
    let mut cur: &Item = base;
    let mut k: usize = 1;
    while k < n
        invariant
            1 <= k <= n,
            n == path@.len(),
            spec_walk(path@, k as int, item_view(*cur), abs_path@) == spec_walk(
                path@,
                1,
                item_view(*base),
                old(abs_path)@,
            ),
        decreases n - k,
    {
        let seg: &String = &path.0[k].0;
        proof {
            assert(path@[k as int] == path.0@[k as int]@);
            lemma_items_view(cur.ns.items@);
        }
        match cur.ns.lookup_index(seg) {
            Some(i) => {
                proof {
                    lemma_lookup(item_view(*cur).children, seg@);
                }
                let child = &cur.ns.items[i];
                if child.exported {
                    abs_path.push_segment(i);
                    cur = child;
                } else {
                    return Err(ResolutionError::Privacy(PrivacyError(clone_string(seg))));
                }
            },
            None => {
                return Err(ResolutionError::PathResolution(PathResolutionError(clone_string(
                    seg,
                ))));
            },
        }
        k = k + 1;
    }
    Ok(cur)
}

/// The reserved symbol that marks export directives.
fn export_keyword() -> (s: String)
    ensures
        s@ == "export"@,
{
    String::from_str("export")
}

/// Sets the exported flag of child `i` of `ns`.
fn set_exported(ns: &mut Namespace, i: usize)
    requires
        i < old(ns)@.len(),
    ensures
        final(ns)@ == mark_exported(old(ns)@, i as int),
{
    proof {
        lemma_items_view(ns.items@);
    }
    let mut child = ns.items.remove(i);
    child.exported = true;
    proof {
        assert(item_view(child) == (ItemV { exported: true, ..old(ns)@[i as int] }));
    }
    ns.items.insert(i, child);
    proof {
        assert(ns.items@ =~= old(ns).items@.update(i as int, child));
        lemma_items_view_update(old(ns).items@, i as int, child);
    }
}

/// Applies an export directive to the still-open namespace `ns`: when the
/// call's path is exactly the reserved export symbol, every argument must
/// name an already-declared child, whose exported flag is then set.
pub fn handle_export(call: &Call, ns: &mut Namespace) -> (r: Result<(), ResolutionError>)
    ensures
        match r {
            Ok(()) => spec_handle_export(call.path@, exps_view(call.args@), old(ns)@) == Ok::<
                Seq<ItemV>,
                ErrV,
            >(final(ns)@),
            Err(e) => spec_handle_export(call.path@, exps_view(call.args@), old(ns)@) == Err::<
                Seq<ItemV>,
                ErrV,
            >(e@),
        },
{
    let kw = export_keyword();
    let is_export = match call.path.only_segment() {
        Some(s) => *s == kw,
        None => false,
    };
    if !is_export {
        return Ok(());
    }
    let ghost argsv = exps_view(call.args@);
    let ghost outer = call.path@;
    let n = call.args.len();
    let mut k: usize = 0;
    while k < n
        invariant
            0 <= k <= n,
            n == call.args@.len(),
            argsv == exps_view(call.args@),
            argsv.len() == n,
            outer == call.path@,
            outer.len() == 1 && outer[0] == "export"@,
            spec_export_args(argsv, 0, old(ns)@, outer) == spec_export_args(
                argsv,
                k as int,
                ns@,
                outer,
            ),
        decreases n - k,
    {
        let arg = &call.args[k];
        proof {
            assert(argsv[k as int] == exp_view(call.args@[k as int]));
        }
        let named: Option<&String> = match arg.bound_name() {
            Some(nm) => Some(nm),
            None => match arg.call() {
                Some(c) => match c.path.only_segment() {
                    Some(nm) => Some(nm),
                    None => None,
                },
                None => None,
            },
        };
        match named {
            Some(nm) => {
                match ns.lookup_index(nm) {
                    Some(i) => {
                        proof {
                            lemma_lookup(ns@, nm@);
                        }
                        set_exported(ns, i);
                    },
                    None => {
                        return Err(ResolutionError::InvalidExport(InvalidExportError(
                            clone_string(nm),
                        )));
                    },
                }
            },
            None => {
                return Err(ResolutionError::InvalidExport(InvalidExportError(
                    call.path.to_string(),
                )));
            },
        }
        k = k + 1;
    }
    Ok(())
}

/// Copies every named binding of the namespace at `source` (an address
/// below `root`) into `target` as an alias item: the alias keeps the
/// source name, and both its address and its referent point at the source
/// item.  No export check is applied at import time.
pub fn glob_import(root: &Item, source: &AbsPath2, target: &mut Item)
    requires
        path_valid(item_view(*root), source@, 0),
    ensures
        final(target)@ == spec_glob_aliases(
            spec_traverse(item_view(*root), source@, 0).children,
            source@,
            0,
            old(target)@,
        ),
        final(target).path == old(target).path,
        final(target).local_name == old(target).local_name,
{
    let src = root.traverse_path(source);
    let ghost srcv = spec_traverse(item_view(*root), source@, 0).children;
    proof {
        lemma_items_view(src.ns.items@);
    }
    let n = src.ns.items.len();
    let mut k: usize = 0;
    while k < n
        invariant
            0 <= k <= n,
            n == src.ns.items@.len(),
            srcv == items_view(src.ns.items@),
            srcv.len() == n,
            forall|j: int| 0 <= j < n ==> srcv[j] == item_view(src.ns.items@[j]),
            spec_glob_aliases(srcv, source@, 0, old(target)@) == spec_glob_aliases(
                srcv,
                source@,
                k as int,
                item_view(*target),
            ),
            target.path == old(target).path,
            target.local_name == old(target).local_name,
        decreases n - k,
    {
        match &src.ns.items[k].local_name {
            Some(nm) => {
                let mut addr = source.clone();
                addr.push_segment(k);
                let referent_addr = addr.clone();
                let alias = Item {
                    local_name: Some(clone_string(nm)),
                    path: addr,
                    exported: false,
                    ns: Namespace::empty(),
                    referent: Some(referent_addr),
                    literal: None,
                };
                proof {
                    assert(item_view(alias) == alias_of(nm@, source@.push(k as int)));
                }
                target.add_child(alias);
            },
            None => {},
        }
        k = k + 1;
    }
}

/// Resolution changes only the children of the open namespace: name,
/// address, exported flag, referent and literal of the parent are kept.
pub proof fn lemma_resolve_one_frame(e: ExpV, scopes: Seq<ItemV>, parent: ItemV)
    ensures
        spec_resolve_one(e, scopes, parent) matches Ok(q) ==> q.name == parent.name && q.path
            == parent.path && q.exported == parent.exported && q.referent == parent.referent
            && q.literal == parent.literal,
    decreases e,
{
}

/// As `lemma_resolve_one_frame`, for a whole expression list.
pub proof fn lemma_resolve_exps_frame(exps: Seq<ExpV>, scopes: Seq<ItemV>, parent: ItemV)
    ensures
        spec_resolve_exps(exps, scopes, parent) matches Ok(q) ==> q.name == parent.name && q.path
            == parent.path && q.exported == parent.exported && q.referent == parent.referent
            && q.literal == parent.literal,
    decreases exps,
{
    if exps.len() > 0 {
        match spec_resolve_one(exps[0], scopes, parent) {
            Ok(p2) => {
                lemma_resolve_one_frame(exps[0], scopes, parent);
                lemma_resolve_exps_frame(exps.subrange(1, exps.len() as int), scopes, p2);
            },
            Err(_) => {},
        }
    }
}

/// An export directive never adds or removes children.
pub proof fn lemma_export_args_len(
    args: Seq<ExpV>,
    k: int,
    children: Seq<ItemV>,
    outer: Seq<Seq<char>>,
)
    ensures
        spec_export_args(args, k, children, outer) matches Ok(c2) ==> c2.len() == children.len(),
    decreases args.len() - k,
{
    if 0 <= k < args.len() {
        let a = args[k];
        match a.name {
            Some(n) => match lookup(children, n) {
                Some(i) => {
                    lemma_lookup(children, n);
                    assert(mark_exported(children, i).len() == children.len());
                    lemma_export_args_len(args, k + 1, mark_exported(children, i), outer);
                },
                None => {},
            },
            None => match a.anon {
                AnonV::Call { path, args: _ } => {
                    if path.len() == 1 {
                        match lookup(children, path[0]) {
                            Some(i) => {
                                lemma_lookup(children, path[0]);
                                assert(mark_exported(children, i).len() == children.len());
                                lemma_export_args_len(
                                    args,
                                    k + 1,
                                    mark_exported(children, i),
                                    outer,
                                );
                            },
                            None => {},
                        }
                    }
                },
                AnonV::Literal(_) => {},
            },
        }
    }
}

/// The scope chain over a non-empty spine is the chain over the spine
/// without its last item, extended by that item.
pub proof fn lemma_scopes_split(root: Item, spine: Seq<Item>)
    requires
        spine.len() >= 1,
    ensures
        scopes_view(root, spine) == scopes_view(root, spine.drop_last()).push(
            item_view(spine.last()),
        ),
{
    lemma_items_view(spine);
    lemma_items_view(spine.drop_last());
    let a = scopes_view(root, spine);
    let b = scopes_view(root, spine.drop_last()).push(item_view(spine.last()));
    assert forall|j: int| 0 <= j < a.len() implies a[j] == b[j] by {
        if j > 0 && j < a.len() - 1 {
            assert(spine.drop_last()[j - 1] == spine[j - 1]);
        }
    }
    assert(a =~= b);
}

/// Resolution of one expression node against the still-open namespace at
/// the top of `spine`: builds the new item, resolves its reference and its
/// arguments, applies a possible export directive, and attaches the item.
fn resolve_step(token: &Exp, root: &Item, spine: &mut Vec<Item>, current_path: &mut AbsPath2) -> (r:
    Result<(), ResolutionError>)
    requires
        old(spine)@.len() >= 1,
        expv_wf(exp_view(*token)),
        old(current_path)@ == item_view(old(spine)@.last()).path,
    ensures
        match r {
            Ok(()) => {
                &&& final(spine)@.len() == old(spine)@.len()
                &&& forall|j: int|
                    0 <= j < final(spine)@.len() - 1 ==> final(spine)@[j] == old(spine)@[j]
                &&& final(current_path).inner@ == old(current_path).inner@
                &&& spec_resolve_one(
                    exp_view(*token),
                    scopes_view(*root, old(spine)@.drop_last()),
                    item_view(old(spine)@.last()),
                ) == Ok::<ItemV, ErrV>(item_view(final(spine)@.last()))
            },
            Err(e) => spec_resolve_one(
                exp_view(*token),
                scopes_view(*root, old(spine)@.drop_last()),
                item_view(old(spine)@.last()),
            ) == Err::<ItemV, ErrV>(e@),
        },
    decreases *token,
{
    let ghost ev = exp_view(*token);
    let ghost scv = scopes_view(*root, old(spine)@.drop_last());
    let ghost parentv = item_view(old(spine)@.last());
    proof {
        lemma_scopes_split(*root, old(spine)@);
        assert(scopes_view(*root, old(spine)@) == scv.push(parentv));
    }

    // Step 1: an explicit binding name must not collide with a name already
    // declared in the still-open namespace.
    let pl = spine.len() - 1;
    match token.bound_name() {
        Some(nm) => {
            proof {
                assert(spine@[pl as int] == spine@.last());
            }
            match spine[pl].ns.lookup_index(nm) {
                Some(_) => {
                    proof {
                        assert(spec_resolve_one(ev, scv, parentv) == Err::<ItemV, ErrV>(
                            ErrV::Shadowing(nm@),
                        ));
                    }
                    return Err(ResolutionError::Shadowing(ShadowingError(clone_string(nm))));
                },
                None => {},
            }
        },
        None => {},
    }

    let mut item = match token.bound_name() {
        Some(nm) => Item::named(nm.as_str()),
        None => Item::anon(),
    };

    // Step 2: resolve the reference of a call expression through the
    // enclosing scopes and apply a possible export directive.
    let ghost mut parent2v = parentv;
    let ghost mut refv: Option<Seq<int>> = None;
    match token.call() {
        Some(call) => {
            proof {
                assert(ev.anon == (AnonV::Call { path: call.path@, args: exps_view(call.args@) }));
                assert(call.path@.len() >= 1);
            }
            let base = match find_referent(call.path.head(), root, spine) {
                Ok(b) => b,
                Err(e) => {
                    proof {
                        assert(spec_find_in_scopes(scv.push(parentv), call.path@[0]) is None);
                        assert(spec_resolve_one(ev, scv, parentv) == Err::<ItemV, ErrV>(
                            ErrV::Unknown(e.0@),
                        ));
                    }
                    return Err(ResolutionError::UnknownName(e));
                },
            };
            let ghost basev = item_view(*base);
            proof {
                assert(spec_find_in_scopes(scv.push(parentv), call.path@[0]) == Some(basev));
            }
            let mut referent_path = base.path.clone();
            match walk_path(&call.path, base, &mut referent_path) {
                Ok(_t) => {},
                Err(e) => {
                    proof {
                        assert(spec_walk(call.path@, 1, basev, basev.path) == Err::<
                            (ItemV, Seq<int>),
                            ErrV,
                        >(e@));
                        assert(spec_resolve_one(ev, scv, parentv) == Err::<ItemV, ErrV>(e@));
                    }
                    return Err(e);
                },
            }
            proof {
                refv = Some(referent_path@);
                assert(spec_walk(call.path@, 1, basev, basev.path) matches Ok(p) && p.1
                    == referent_path@);
            }
            let mut parent = spine.pop().unwrap();
            proof {
                assert(parent == old(spine)@.last());
                assert(parent.ns@ == parentv.children);
            }
            match handle_export(call, &mut parent.ns) {
                Ok(()) => {},
                Err(e) => {
                    proof {
                        assert(spec_handle_export(
                            call.path@,
                            exps_view(call.args@),
                            parentv.children,
                        ) == Err::<Seq<ItemV>, ErrV>(e@));
                        assert(spec_resolve_one(ev, scv, parentv) == Err::<ItemV, ErrV>(e@));
                    }
                    return Err(e);
                },
            }
            proof {
                assert(item_view(parent) == (ItemV { children: parent.ns@, ..parentv }));
            }
            spine.push(parent);
            item.referent = Some(referent_path);
            proof {
                parent2v = item_view(spine@.last());
                assert(spec_handle_export(call.path@, exps_view(call.args@), parentv.children)
                    == Ok::<Seq<ItemV>, ErrV>(parent2v.children));
                assert(parent2v == (ItemV { children: parent2v.children, ..parentv }));
            }
        },
        None => {
            proof {
                assert(ev.anon is Literal);
            }
        },
    }

    // Step 3: a literal value is recorded on the new item.
    match token.lit() {
        Some(l) => item.set_lit(l),
        None => {},
    }

    // Step 4: the new item receives the next free address under the parent.
    proof {
        match ev.anon {
            AnonV::Call { path, args } => {
                lemma_export_args_len(args, 0, parentv.children, path);
            },
            AnonV::Literal(_) => {},
        }
        assert(parent2v.children.len() == parentv.children.len());
        assert(item_view(spine@.last()) == parent2v);
        assert(spine@.drop_last() =~= old(spine)@.drop_last());
    }
    let pl2 = spine.len() - 1;
    proof {
        assert(spine@[pl2 as int] == spine@.last());
    }
    let parent_next = spine[pl2].next_idx();
    current_path.push_segment(parent_next);
    item.path = current_path.clone();
    let ghost child0v = item_view(item);
    proof {
        assert(child0v == (ItemV {
            name: ev.name,
            path: parentv.path.push(parentv.children.len() as int),
            exported: false,
            children: Seq::empty(),
            referent: refv,
            literal: match ev.anon {
                AnonV::Literal(l) => Some(l),
                AnonV::Call { .. } => None,
            },
        }));
    }

    // Step 5: the argument list is resolved into the new item's namespace,
    // with the parent now lexically visible.
    let sub = token.call_args();
    let ghost spine_mid = spine@;
    spine.push(item);
    proof {
        lemma_scopes_split(*root, spine@);
        assert(spine@.drop_last() =~= spine_mid);
        assert(scopes_view(*root, spine@.drop_last()) == scopes_view(*root, spine_mid));
        lemma_scopes_split(*root, spine_mid);
        assert(scopes_view(*root, spine_mid) =~= scv.push(parent2v));
    }
    if sub.len() > 0 {
        proof {
            match &token.0 {
                AnonExp::Call(c) => {
                    assert(decreases_to!(*token => token.0));
                    assert(decreases_to!(token.0 => *c));
                    assert(decreases_to!(*c => c.args));
                    assert(decreases_to!(c.args => c.args@));
                    assert(sub@ == c.args@);
                },
                AnonExp::Literal(_) => {
                    assert(false);
                },
            }
        }
        match resolve_recursive(sub, root, spine, current_path) {
            Ok(()) => {},
            Err(e) => {
                proof {
                    match ev.anon {
                        AnonV::Call { path, args } => {
                            assert(spec_resolve_exps(args, scv.push(parent2v), child0v) == Err::<
                                ItemV,
                                ErrV,
                            >(e@));
                            assert(spec_resolve_one(ev, scv, parentv) == Err::<ItemV, ErrV>(e@));
                        },
                        AnonV::Literal(_) => {
                            assert(false);
                        },
                    }
                }
                return Err(e);
            },
        }
    }
    let item2 = spine.pop().unwrap();
    let ghost item2v = item_view(item2);
    proof {
        match ev.anon {
            AnonV::Call { path, args } => {
                assert(spec_resolve_exps(args, scv.push(parent2v), child0v) == Ok::<ItemV, ErrV>(
                    item2v,
                ));
                lemma_resolve_exps_frame(args, scv.push(parent2v), child0v);
                assert(item2v.path == child0v.path);
            },
            AnonV::Literal(_) => {
                assert(item2v == child0v);
            },
        }
    }

    // Step 6: the fully built item is attached to the parent namespace.
    let mut parent = spine.pop().unwrap();
    proof {
        assert(item_view(parent) == parent2v);
        assert(item_view(item2).path == parent2v.path.push(parent2v.children.len() as int));
    }
    parent.add_child(item2);
    current_path.pop_segment();
    proof {
        assert(current_path.inner@ =~= old(current_path).inner@);
    }
    spine.push(parent);
    proof {
        assert(item_view(spine@.last()) == (ItemV {
            children: parent2v.children.push(item2v),
            ..parent2v
        }));
        assert(spec_resolve_one(ev, scv, parentv) == Ok::<ItemV, ErrV>(item_view(spine@.last())));
        assert(spine@.drop_last() =~= old(spine)@.drop_last());
        assert forall|j: int| 0 <= j < spine@.len() - 1 implies spine@[j] == old(spine)@[j] by {
            assert(spine@.drop_last()[j] == old(spine)@.drop_last()[j]);
        }
    }
    Ok(())
}

/// Resolution of a list of expression nodes, in declaration order, into
/// the still-open namespace at the top of `spine`.  The first failure
/// aborts everything.
pub fn resolve_recursive(
    token_tree: &[Exp],
    root: &Item,
    spine: &mut Vec<Item>,
    current_path: &mut AbsPath2,
) -> (r: Result<(), ResolutionError>)
    requires
        old(spine)@.len() >= 1,
        expsv_wf(exps_view(token_tree@)),
        old(current_path)@ == item_view(old(spine)@.last()).path,
    ensures
        match r {
            Ok(()) => {
                &&& final(spine)@.len() == old(spine)@.len()
                &&& forall|j: int|
                    0 <= j < final(spine)@.len() - 1 ==> final(spine)@[j] == old(spine)@[j]
                &&& final(current_path).inner@ == old(current_path).inner@
                &&& spec_resolve_exps(
                    exps_view(token_tree@),
                    scopes_view(*root, old(spine)@.drop_last()),
                    item_view(old(spine)@.last()),
                ) == Ok::<ItemV, ErrV>(item_view(final(spine)@.last()))
            },
            Err(e) => spec_resolve_exps(
                exps_view(token_tree@),
                scopes_view(*root, old(spine)@.drop_last()),
                item_view(old(spine)@.last()),
            ) == Err::<ItemV, ErrV>(e@),
        },
    decreases token_tree@,
{
    let ghost vs = exps_view(token_tree@);
    let ghost scv = scopes_view(*root, old(spine)@.drop_last());
    let ghost parent0 = item_view(old(spine)@.last());
    proof {
        lemma_exps_view(token_tree@);
        assert(vs.subrange(0, vs.len() as int) =~= vs);
    }
    let n = token_tree.len();
    let mut i: usize = 0;
    while i < n
        invariant
            0 <= i <= n,
            n == token_tree@.len(),
            vs == exps_view(token_tree@),
            vs.len() == n,
            expsv_wf(vs),
            forall|j: int| 0 <= j < n ==> vs[j] == exp_view(token_tree@[j]),
            spine@.len() == old(spine)@.len(),
            spine@.len() >= 1,
            forall|j: int| 0 <= j < spine@.len() - 1 ==> spine@[j] == old(spine)@[j],
            scv == scopes_view(*root, old(spine)@.drop_last()),
            scv == scopes_view(*root, spine@.drop_last()),
            parent0 == item_view(old(spine)@.last()),
            current_path@ == item_view(spine@.last()).path,
            current_path.inner@ == old(current_path).inner@,
            spec_resolve_exps(vs, scv, parent0) == spec_resolve_exps(
                vs.subrange(i as int, n as int),
                scv,
                item_view(spine@.last()),
            ),
        decreases n - i,
    {
        let token = &token_tree[i];
        proof {
            assert(vs[i as int] == exp_view(token_tree@[i as int]));
            assert(expv_wf(vs[i as int]));
            assert(vs.subrange(i as int, n as int)[0] == vs[i as int]);
            assert(vs.subrange(i as int, n as int).subrange(1, (n - i) as int) =~= vs.subrange(
                i + 1,
                n as int,
            ));
        }
        let ghost parentv = item_view(spine@.last());
        let ghost spine_before = spine@;
        match resolve_step(token, root, spine, current_path) {
            Ok(()) => {},
            Err(e) => {
                proof {
                    assert(spec_resolve_one(vs[i as int], scv, parentv) == Err::<ItemV, ErrV>(e@));
                    let sub_i = vs.subrange(i as int, n as int);
                    assert(sub_i.len() == n - i);
                    assert(sub_i[0] == vs[i as int]);
                    assert(spec_resolve_exps(sub_i, scv, parentv) == Err::<ItemV, ErrV>(e@));
                    assert(spec_resolve_exps(vs, scv, parent0) == Err::<ItemV, ErrV>(e@));
                }
                return Err(e);
            },
        }
        proof {
            assert(spine@.drop_last() =~= spine_before.drop_last());
        }
        i = i + 1;
    }
    proof {
        assert(vs.subrange(n as int, n as int) =~= Seq::<ExpV>::empty());
    }
    Ok(())
}

/// Whether `path` selects an existing item below `root`: every segment
/// must be the index of an existing child.
pub fn check_path_valid(root: &Item, path: &AbsPath2) -> (r: bool)
    ensures
        r == path_valid(item_view(*root), path@, 0),
{
    let n = path.inner.len();
    let mut cur: &Item = root;
    let mut k: usize = 0;
    while k < n
        invariant
            0 <= k <= n,
            n == path@.len(),
            path_valid(item_view(*root), path@, 0) == path_valid(item_view(*cur), path@, k as int),
        decreases n - k,
    {
        let idx = path.inner[k];
        proof {
            lemma_items_view(cur.ns.items@);
            assert(path@[k as int] == idx as int);
        }
        if idx >= cur.ns.items.len() {
            return false;
        }
        cur = &cur.ns.items[idx];
        k = k + 1;
    }
    true
}

/// Resolves one library: reserves the next free address under `root`,
/// glob-imports the prelude namespace when an address for one is given,
/// and resolves the token tree with the root as the only enclosing scope.
/// The returned item is the fully built library; the caller attaches it to
/// the root.
pub fn resolve(
    libname: &str,
    token_tree: &[Exp],
    root: &Item,
    prelude_path: Option<&AbsPath2>,
) -> (r: Result<Item, ResolutionError>)
    requires
        expsv_wf(exps_view(token_tree@)),
        match prelude_path {
            Some(p) => path_valid(item_view(*root), p@, 0),
            None => true,
        },
    ensures
        match r {
            Ok(lib) => spec_resolve(
                libname@,
                exps_view(token_tree@),
                item_view(*root),
                match prelude_path {
                    Some(p) => Some(p@),
                    None => None,
                },
            ) == Ok::<ItemV, ErrV>(item_view(lib)),
            Err(e) => spec_resolve(
                libname@,
                exps_view(token_tree@),
                item_view(*root),
                match prelude_path {
                    Some(p) => Some(p@),
                    None => None,
                },
            ) == Err::<ItemV, ErrV>(e@),
        },
{
    let ghost rootv = item_view(*root);
    let ghost preludev: Option<Seq<int>> = match prelude_path {
        Some(p) => Some(p@),
        None => None,
    };
    let mut lib = Item::named(libname);
    let mut segs: Vec<usize> = Vec::new();
    segs.push(root.ns.items.len());
    lib.path = AbsPath2::new(segs);
    proof {
        lemma_items_view(root.ns.items@);
        assert(lib.path@ =~= seq![rootv.children.len() as int]);
        assert(item_view(lib) == (ItemV {
            name: Some(libname@),
            path: seq![rootv.children.len() as int],
            exported: false,
            children: Seq::empty(),
            referent: None,
            literal: None,
        }));
    }
    match prelude_path {
        Some(p) => glob_import(root, p, &mut lib),
        None => {},
    }
    let ghost lib1v = item_view(lib);
    let mut current_path = lib.path.clone();
    let mut spine: Vec<Item> = Vec::new();
    spine.push(lib);
    proof {
        assert(spine@.last() == spine@[0]);
        assert(item_view(spine@.last()) == lib1v);
        assert(spine@.drop_last() =~= Seq::<Item>::empty());
        assert(items_view(Seq::<Item>::empty()) == Seq::<ItemV>::empty());
        assert(scopes_view(*root, Seq::<Item>::empty()) =~= seq![rootv]);
        assert(current_path@ == lib1v.path);
    }
    match resolve_recursive(token_tree, root, &mut spine, &mut current_path) {
        Ok(()) => {},
        Err(e) => {
            proof {
                assert(spec_resolve_exps(exps_view(token_tree@), seq![rootv], lib1v) == Err::<
                    ItemV,
                    ErrV,
                >(e@));
            }
            return Err(e);
        },
    }
    let out = spine.pop().unwrap();
    proof {
        assert(spec_resolve_exps(exps_view(token_tree@), seq![rootv], lib1v) == Ok::<ItemV, ErrV>(
            item_view(out),
        ));
    }
    Ok(out)
}

// ------------------------------------------------------------------
// Laws of the resolved tree.
// ------------------------------------------------------------------

/// Address stability, recursively: every child carries its parent's
/// address extended by its own position — except an alias item, whose
/// address is that of the aliased source item.
pub open spec fn paths_consistent(v: ItemV) -> bool
    decreases v,
{
    forall|i: int|
        0 <= i < v.children.len() ==> {
            let c = #[trigger] v.children[i];
            (c.path == v.path.push(i) || is_alias(c)) && paths_consistent(c)
        }
}

/// No two named children of one namespace share a name.
pub open spec fn names_unique(children: Seq<ItemV>) -> bool {
    forall|i: int, j: int|
        0 <= i < j < children.len() && #[trigger] children[i].name is Some ==> children[i].name
            != #[trigger] children[j].name
}

/// `names_unique`, recursively for every namespace of the tree.
pub open spec fn tree_names_unique(v: ItemV) -> bool
    decreases v,
{
    names_unique(v.children) && forall|i: int|
        0 <= i < v.children.len() ==> tree_names_unique(#[trigger] v.children[i])
}

/// Valid path that passes through no alias item.
pub open spec fn path_valid_no_alias(v: ItemV, p: Seq<int>, k: int) -> bool
    decreases p.len() - k,
{
    k >= p.len() || (0 <= k && 0 <= p[k] < v.children.len() && !is_alias(v.children[p[k]])
        && path_valid_no_alias(v.children[p[k]], p, k + 1))
}

/// Address stability: in a tree with consistent addresses, the item
/// reached from `v` by a chain of child positions `p` (passing through no
/// alias) carries the address of `v` extended by exactly `p`.  With the
/// root at the empty address, dereferencing any such item's address from
/// the root therefore reaches that very item.
pub proof fn lemma_address_stability(v: ItemV, p: Seq<int>, k: int)
    requires
        paths_consistent(v),
        path_valid_no_alias(v, p, k),
        0 <= k <= p.len(),
    ensures
        spec_traverse(v, p, k).path == v.path + p.subrange(k, p.len() as int),
    decreases p.len() - k,
{
    if k == p.len() {
        assert(p.subrange(k, p.len() as int) =~= Seq::<int>::empty());
        assert(v.path + Seq::<int>::empty() =~= v.path);
    } else {
        let c = v.children[p[k]];
        assert(c.path == v.path.push(p[k]));
        lemma_address_stability(c, p, k + 1);
        assert(spec_traverse(v, p, k) == spec_traverse(c, p, k + 1));
        assert(v.path.push(p[k]) + p.subrange(k + 1, p.len() as int) =~= v.path + p.subrange(
            k,
            p.len() as int,
        ));
    }
}

/// The name-to-index mapping of a namespace, derived from the child list.
pub open spec fn names_map(children: Seq<ItemV>) -> Map<Seq<char>, int> {
    Map::new(
        |n: Seq<char>| lookup(children, n) is Some,
        |n: Seq<char>| lookup(children, n).unwrap(),
    )
}

/// Lookup/list consistency: in a namespace without duplicate names, the
/// name-to-index mapping's image is exactly the set of positions of the
/// children that carry a name, and each mapped position's child carries
/// exactly the mapped name.
pub proof fn lemma_lookup_list_consistency(children: Seq<ItemV>)
    requires
        names_unique(children),
    ensures
        forall|n: Seq<char>|
            #[trigger] names_map(children).dom().contains(n) ==> 0 <= names_map(children)[n]
                < children.len() && children[names_map(children)[n]].name == Some(n),
        forall|i: int|
            0 <= i < children.len() && (#[trigger] children[i].name) is Some ==> names_map(
                children,
            ).dom().contains(children[i].name.unwrap()) && names_map(children)[children[i].name.unwrap()]
                == i,
{
    assert forall|n: Seq<char>| #[trigger] names_map(children).dom().contains(n) implies 0
        <= names_map(children)[n] < children.len() && children[names_map(children)[n]].name
        == Some(n) by {
        lemma_lookup(children, n);
    }
    assert forall|i: int|
        0 <= i < children.len() && (#[trigger] children[i].name) is Some implies names_map(
        children,
    ).dom().contains(children[i].name.unwrap()) && names_map(children)[children[i].name.unwrap()]
        == i by {
        let n = children[i].name.unwrap();
        lemma_lookup(children, n);
        match lookup(children, n) {
            Some(j) => {
                if j < i {
                    assert(children[j].name == children[i].name);
                } else if j > i {
                    assert(children[i].name != Some(n));
                }
            },
            None => {
                assert(children[i].name != Some(n));
            },
        }
    }
}

/// Round-trip idempotence: resolution is a function of the structure of
/// its inputs alone.  Resolving one token tree against two structurally
/// identical roots — equal as ghost values, however distinct the heap
/// trees that carry them — produces structurally identical libraries, or
/// the very same failure.
pub proof fn lemma_resolution_deterministic(
    libname: Seq<char>,
    tokens: Seq<ExpV>,
    root1: ItemV,
    root2: ItemV,
    prelude: Option<Seq<int>>,
)
    requires
        root1 == root2,
    ensures
        spec_resolve(libname, tokens, root1, prelude) == spec_resolve(libname, tokens, root2, prelude),
{
}

/// An export directive changes nothing but exported flags: every child
/// keeps its name, address, children, referent and literal.
pub proof fn lemma_export_args_shape(
    args: Seq<ExpV>,
    k: int,
    children: Seq<ItemV>,
    outer: Seq<Seq<char>>,
)
    ensures
        spec_export_args(args, k, children, outer) matches Ok(c2) ==> c2.len() == children.len()
            && forall|i: int|
            0 <= i < children.len() ==> (#[trigger] c2[i]).name == children[i].name && c2[i].path
                == children[i].path && c2[i].children == children[i].children && c2[i].referent
                == children[i].referent && c2[i].literal == children[i].literal,
    decreases args.len() - k,
{
    if 0 <= k < args.len() {
        let a = args[k];
        match a.name {
            Some(n) => match lookup(children, n) {
                Some(i) => {
                    lemma_lookup(children, n);
                    lemma_export_args_shape(args, k + 1, mark_exported(children, i), outer);
                },
                None => {},
            },
            None => match a.anon {
                AnonV::Call { path, args: _ } => {
                    if path.len() == 1 {
                        match lookup(children, path[0]) {
                            Some(i) => {
                                lemma_lookup(children, path[0]);
                                lemma_export_args_shape(
                                    args,
                                    k + 1,
                                    mark_exported(children, i),
                                    outer,
                                );
                            },
                            None => {},
                        }
                    }
                },
                AnonV::Literal(_) => {},
            },
        }
    }
}

/// Address consistency of an item depends only on its address and its
/// children, not on its flags.
pub proof fn lemma_pc_same_shape(a: ItemV, b: ItemV)
    requires
        a.children == b.children,
        a.path == b.path,
    ensures
        paths_consistent(a) == paths_consistent(b),
{
}

/// Name uniqueness of a tree depends only on its children.
pub proof fn lemma_nu_same_shape(a: ItemV, b: ItemV)
    requires
        a.children == b.children,
    ensures
        tree_names_unique(a) == tree_names_unique(b),
{
}

/// Resolving one expression into a tree with consistent addresses yields a
/// tree with consistent addresses.
pub proof fn lemma_resolve_one_pc(e: ExpV, scopes: Seq<ItemV>, parent: ItemV)
    requires
        paths_consistent(parent),
    ensures
        spec_resolve_one(e, scopes, parent) matches Ok(q) ==> paths_consistent(q),
    decreases e,
{
    if !(e.name matches Some(n) && lookup(parent.children, n) is Some) {
        match e.anon {
            AnonV::Call { path, args } => {
                match spec_find_in_scopes(scopes.push(parent), path[0]) {
                    None => {},
                    Some(base) => match spec_walk(path, 1, base, base.path) {
                        Err(_) => {},
                        Ok((_target, refpath)) => match spec_handle_export(
                            path,
                            args,
                            parent.children,
                        ) {
                            Err(_) => {},
                            Ok(children2) => {
                                lemma_export_args_shape(args, 0, parent.children, path);
                                let parent2 = ItemV { children: children2, ..parent };
                                assert(paths_consistent(parent2)) by {
                                    assert forall|i: int|
                                        0 <= i < parent2.children.len() implies {
                                        let c = #[trigger] parent2.children[i];
                                        (c.path == parent2.path.push(i) || is_alias(c))
                                            && paths_consistent(c)
                                    } by {
                                        let c = parent2.children[i];
                                        let c0 = parent.children[i];
                                        lemma_pc_same_shape(c, c0);
                                        assert(is_alias(c) == is_alias(c0));
                                    }
                                }
                                let child0 = ItemV {
                                    name: e.name,
                                    path: parent.path.push(parent.children.len() as int),
                                    exported: false,
                                    children: Seq::empty(),
                                    referent: Some(refpath),
                                    literal: None,
                                };
                                assert(paths_consistent(child0));
                                lemma_resolve_exps_pc(args, scopes.push(parent2), child0);
                                match spec_resolve_exps(args, scopes.push(parent2), child0) {
                                    Err(_) => {},
                                    Ok(child) => {
                                        lemma_resolve_exps_frame(
                                            args,
                                            scopes.push(parent2),
                                            child0,
                                        );
                                        let q = ItemV {
                                            children: parent2.children.push(child),
                                            ..parent2
                                        };
                                        assert forall|i: int|
                                            0 <= i < q.children.len() implies {
                                            let c = #[trigger] q.children[i];
                                            (c.path == q.path.push(i) || is_alias(c))
                                                && paths_consistent(c)
                                        } by {
                                            if i < parent2.children.len() {
                                                assert(q.children[i] == parent2.children[i]);
                                            } else {
                                                assert(q.children[i] == child);
                                            }
                                        }
                                    },
                                }
                            },
                        },
                    },
                }
            },
            AnonV::Literal(l) => {
                let child0 = ItemV {
                    name: e.name,
                    path: parent.path.push(parent.children.len() as int),
                    exported: false,
                    children: Seq::empty(),
                    referent: None,
                    literal: Some(l),
                };
                let q = ItemV { children: parent.children.push(child0), ..parent };
                assert forall|i: int|
                    0 <= i < q.children.len() implies {
                    let c = #[trigger] q.children[i];
                    (c.path == q.path.push(i) || is_alias(c)) && paths_consistent(c)
                } by {
                    if i < parent.children.len() {
                        assert(q.children[i] == parent.children[i]);
                    } else {
                        assert(q.children[i] == child0);
                    }
                }
            },
        }
    }
}

/// As `lemma_resolve_one_pc`, for a whole expression list.
pub proof fn lemma_resolve_exps_pc(exps: Seq<ExpV>, scopes: Seq<ItemV>, parent: ItemV)
    requires
        paths_consistent(parent),
    ensures
        spec_resolve_exps(exps, scopes, parent) matches Ok(q) ==> paths_consistent(q),
    decreases exps,
{
    if exps.len() > 0 {
        match spec_resolve_one(exps[0], scopes, parent) {
            Ok(p2) => {
                lemma_resolve_one_pc(exps[0], scopes, parent);
                lemma_resolve_exps_pc(exps.subrange(1, exps.len() as int), scopes, p2);
            },
            Err(_) => {},
        }
    }
}

/// Resolving one expression into a tree without duplicate names yields a
/// tree without duplicate names: the shadowing check refuses every clash.
pub proof fn lemma_resolve_one_nu(e: ExpV, scopes: Seq<ItemV>, parent: ItemV)
    requires
        tree_names_unique(parent),
    ensures
        spec_resolve_one(e, scopes, parent) matches Ok(q) ==> tree_names_unique(q),
    decreases e,
{
    if !(e.name matches Some(n) && lookup(parent.children, n) is Some) {
        lemma_lookup_none_no_name(parent.children, e);
        match e.anon {
            AnonV::Call { path, args } => {
                match spec_find_in_scopes(scopes.push(parent), path[0]) {
                    None => {},
                    Some(base) => match spec_walk(path, 1, base, base.path) {
                        Err(_) => {},
                        Ok((_target, refpath)) => match spec_handle_export(
                            path,
                            args,
                            parent.children,
                        ) {
                            Err(_) => {},
                            Ok(children2) => {
                                lemma_export_args_shape(args, 0, parent.children, path);
                                let parent2 = ItemV { children: children2, ..parent };
                                assert(tree_names_unique(parent2)) by {
                                    assert(names_unique(children2)) by {
                                        assert forall|i: int, j: int|
                                            0 <= i < j < children2.len() && #[trigger] children2[i].name is Some implies children2[i].name
                                            != #[trigger] children2[j].name by {
                                            assert(children2[i].name == parent.children[i].name);
                                            assert(children2[j].name == parent.children[j].name);
                                        }
                                    }
                                    assert forall|i: int|
                                        0 <= i < children2.len() implies tree_names_unique(
                                        #[trigger] children2[i],
                                    ) by {
                                        lemma_nu_same_shape(children2[i], parent.children[i]);
                                    }
                                }
                                let child0 = ItemV {
                                    name: e.name,
                                    path: parent.path.push(parent.children.len() as int),
                                    exported: false,
                                    children: Seq::empty(),
                                    referent: Some(refpath),
                                    literal: None,
                                };
                                assert(tree_names_unique(child0));
                                lemma_resolve_exps_nu(args, scopes.push(parent2), child0);
                                match spec_resolve_exps(args, scopes.push(parent2), child0) {
                                    Err(_) => {},
                                    Ok(child) => {
                                        lemma_resolve_exps_frame(
                                            args,
                                            scopes.push(parent2),
                                            child0,
                                        );
                                        let q = ItemV {
                                            children: parent2.children.push(child),
                                            ..parent2
                                        };
                                        lemma_push_keeps_nu(parent.children, children2, child, e);
                                        assert(tree_names_unique(q)) by {
                                            assert(names_unique(q.children));
                                            assert forall|i: int|
                                                0 <= i < q.children.len() implies tree_names_unique(
                                                #[trigger] q.children[i],
                                            ) by {
                                                if i < children2.len() {
                                                    assert(q.children[i] == children2[i]);
                                                    lemma_nu_same_shape(
                                                        children2[i],
                                                        parent.children[i],
                                                    );
                                                } else {
                                                    assert(q.children[i] == child);
                                                }
                                            }
                                        }
                                    },
                                }
                            },
                        },
                    },
                }
            },
            AnonV::Literal(l) => {
                let child0 = ItemV {
                    name: e.name,
                    path: parent.path.push(parent.children.len() as int),
                    exported: false,
                    children: Seq::empty(),
                    referent: None,
                    literal: Some(l),
                };
                let q = ItemV { children: parent.children.push(child0), ..parent };
                lemma_push_keeps_nu(parent.children, parent.children, child0, e);
                assert(tree_names_unique(q)) by {
                    assert(names_unique(q.children));
                    assert forall|i: int|
                        0 <= i < q.children.len() implies tree_names_unique(
                        #[trigger] q.children[i],
                    ) by {
                        if i < parent.children.len() {
                            assert(q.children[i] == parent.children[i]);
                        } else {
                            assert(q.children[i] == child0);
                        }
                    }
                }
            },
        }
    }
}

/// When the shadowing check passes, no existing child carries the new
/// expression's binding name.
proof fn lemma_lookup_none_no_name(children: Seq<ItemV>, e: ExpV)
    requires
        !(e.name matches Some(n) && lookup(children, n) is Some),
    ensures
        forall|i: int| 0 <= i < children.len() ==> (#[trigger] children[i].name) != e.name
            || e.name is None,
{
    match e.name {
        Some(n) => {
            lemma_lookup(children, n);
        },
        None => {},
    }
}

/// Appending a child whose name passed the shadowing check keeps the
/// namespace's names unique.  `before` is the namespace that the check ran
/// against; `now` carries the same names.
proof fn lemma_push_keeps_nu(before: Seq<ItemV>, now: Seq<ItemV>, child: ItemV, e: ExpV)
    requires
        names_unique(now),
        now.len() == before.len(),
        forall|i: int| 0 <= i < before.len() ==> (#[trigger] now[i]).name == before[i].name,
        !(e.name matches Some(n) && lookup(before, n) is Some),
        child.name == e.name,
    ensures
        names_unique(now.push(child)),
{
    lemma_lookup_none_no_name(before, e);
    let q = now.push(child);
    assert forall|i: int, j: int|
        0 <= i < j < q.len() && #[trigger] q[i].name is Some implies q[i].name != #[trigger] q[j].name by {
        if j < now.len() {
            assert(q[i] == now[i] && q[j] == now[j]);
        } else {
            assert(q[j] == child);
            assert(q[i] == now[i]);
            if child.name is Some {
                assert(before[i].name != e.name);
            }
        }
    }
}

/// As `lemma_resolve_one_nu`, for a whole expression list.
pub proof fn lemma_resolve_exps_nu(exps: Seq<ExpV>, scopes: Seq<ItemV>, parent: ItemV)
    requires
        tree_names_unique(parent),
    ensures
        spec_resolve_exps(exps, scopes, parent) matches Ok(q) ==> tree_names_unique(q),
    decreases exps,
{
    if exps.len() > 0 {
        match spec_resolve_one(exps[0], scopes, parent) {
            Ok(p2) => {
                lemma_resolve_one_nu(exps[0], scopes, parent);
                lemma_resolve_exps_nu(exps.subrange(1, exps.len() as int), scopes, p2);
            },
            Err(_) => {},
        }
    }
}

/// Glob import keeps addresses consistent: every alias falls under the
/// alias exception, and the items already present are untouched.
pub proof fn lemma_glob_pc(src: Seq<ItemV>, sp: Seq<int>, k: int, target: ItemV)
    requires
        paths_consistent(target),
    ensures
        paths_consistent(spec_glob_aliases(src, sp, k, target)),
    decreases src.len() - k,
{
    if 0 <= k < src.len() {
        match src[k].name {
            Some(n) => {
                let a = alias_of(n, sp.push(k));
                let t2 = ItemV { children: target.children.push(a), ..target };
                assert(paths_consistent(t2)) by {
                    assert forall|i: int|
                        0 <= i < t2.children.len() implies {
                        let c = #[trigger] t2.children[i];
                        (c.path == t2.path.push(i) || is_alias(c)) && paths_consistent(c)
                    } by {
                        if i < target.children.len() {
                            assert(t2.children[i] == target.children[i]);
                        } else {
                            assert(t2.children[i] == a);
                            assert(is_alias(a));
                        }
                    }
                }
                lemma_glob_pc(src, sp, k + 1, t2);
            },
            None => {
                lemma_glob_pc(src, sp, k + 1, target);
            },
        }
    }
}

/// Glob import keeps names unique, provided the source namespace has
/// unique names and none of them is already bound in the target.
pub proof fn lemma_glob_nu(src: Seq<ItemV>, sp: Seq<int>, k: int, target: ItemV)
    requires
        names_unique(src),
        tree_names_unique(target),
        forall|j: int, i: int|
            k <= j < src.len() && 0 <= i < target.children.len() && (#[trigger] src[j].name) is Some
                ==> (#[trigger] target.children[i].name) != src[j].name,
    ensures
        tree_names_unique(spec_glob_aliases(src, sp, k, target)),
    decreases src.len() - k,
{
    if 0 <= k < src.len() {
        match src[k].name {
            Some(n) => {
                let a = alias_of(n, sp.push(k));
                let t2 = ItemV { children: target.children.push(a), ..target };
                assert(tree_names_unique(t2)) by {
                    assert(names_unique(t2.children)) by {
                        assert forall|i: int, j: int|
                            0 <= i < j < t2.children.len() && #[trigger] t2.children[i].name is Some implies t2.children[i].name
                            != #[trigger] t2.children[j].name by {
                            if j < target.children.len() {
                                assert(t2.children[i] == target.children[i]);
                                assert(t2.children[j] == target.children[j]);
                            } else {
                                assert(t2.children[j] == a);
                                assert(t2.children[i] == target.children[i]);
                            }
                        }
                    }
                    assert forall|i: int|
                        0 <= i < t2.children.len() implies tree_names_unique(
                        #[trigger] t2.children[i],
                    ) by {
                        if i < target.children.len() {
                            assert(t2.children[i] == target.children[i]);
                        } else {
                            assert(t2.children[i] == a);
                        }
                    }
                }
                assert forall|j: int, i: int|
                    k + 1 <= j < src.len() && 0 <= i < t2.children.len() && (#[trigger] src[j].name) is Some implies (
                #[trigger] t2.children[i].name) != src[j].name by {
                    if i < target.children.len() {
                        assert(t2.children[i] == target.children[i]);
                    } else {
                        assert(t2.children[i] == a);
                        assert(src[k].name != src[j].name);
                    }
                }
                lemma_glob_nu(src, sp, k + 1, t2);
            },
            None => {
                lemma_glob_nu(src, sp, k + 1, target);
            },
        }
    }
}

/// Glob import changes only the children of the target item.
pub proof fn lemma_glob_frame(src: Seq<ItemV>, sp: Seq<int>, k: int, target: ItemV)
    ensures
        spec_glob_aliases(src, sp, k, target).path == target.path,
        spec_glob_aliases(src, sp, k, target).name == target.name,
        spec_glob_aliases(src, sp, k, target).exported == target.exported,
        spec_glob_aliases(src, sp, k, target).referent == target.referent,
        spec_glob_aliases(src, sp, k, target).literal == target.literal,
    decreases src.len() - k,
{
    if 0 <= k < src.len() {
        match src[k].name {
            Some(n) => {
                lemma_glob_frame(
                    src,
                    sp,
                    k + 1,
                    ItemV {
                        children: target.children.push(alias_of(n, sp.push(k))),
                        ..target
                    },
                );
            },
            None => {
                lemma_glob_frame(src, sp, k + 1, target);
            },
        }
    }
}

/// Every namespace reached by a valid path in a tree without duplicate
/// names is itself without duplicate names.
pub proof fn lemma_traverse_nu(v: ItemV, p: Seq<int>, k: int)
    requires
        tree_names_unique(v),
        path_valid(v, p, k),
    ensures
        tree_names_unique(spec_traverse(v, p, k)),
    decreases p.len() - k,
{
    if 0 <= k < p.len() {
        lemma_traverse_nu(v.children[p[k]], p, k + 1);
    }
}

/// A successfully resolved library is well formed: every item's address
/// is its parent's address extended by its position (aliases excepted, as
/// their address names the aliased item), and no namespace in it binds
/// one name twice.
pub proof fn lemma_resolve_well_formed(
    libname: Seq<char>,
    tokens: Seq<ExpV>,
    root: ItemV,
    prelude: Option<Seq<int>>,
)
    requires
        tree_names_unique(root),
        match prelude {
            Some(p) => path_valid(root, p, 0),
            None => true,
        },
        spec_resolve(libname, tokens, root, prelude) is Ok,
    ensures
        paths_consistent(spec_resolve(libname, tokens, root, prelude)->Ok_0),
        tree_names_unique(spec_resolve(libname, tokens, root, prelude)->Ok_0),
{
    let lib0 = ItemV {
        name: Some(libname),
        path: seq![root.children.len() as int],
        exported: false,
        children: Seq::empty(),
        referent: None,
        literal: None,
    };
    assert(paths_consistent(lib0));
    assert(tree_names_unique(lib0));
    let lib1 = match prelude {
        Some(p) => spec_glob_aliases(spec_traverse(root, p, 0).children, p, 0, lib0),
        None => lib0,
    };
    match prelude {
        Some(p) => {
            lemma_traverse_nu(root, p, 0);
            lemma_glob_pc(spec_traverse(root, p, 0).children, p, 0, lib0);
            lemma_glob_nu(spec_traverse(root, p, 0).children, p, 0, lib0);
        },
        None => {},
    }
    lemma_resolve_exps_pc(tokens, seq![root], lib1);
    lemma_resolve_exps_nu(tokens, seq![root], lib1);
}

} // verus!
